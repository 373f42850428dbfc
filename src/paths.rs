//! Where the store's four files live.
use vstd::prelude::*;
use crate::error::StoreError;
use crate::records::line_views;
use crate::search::{segments, segments_of};
use crate::text::{append_chars, chars_of, join_path, string_from};

verus! {

/// The files of the store: the entries, their expiry instants, the user's
/// preferences, and the instants of the last jumps.
#[derive(Clone, Debug)]
pub struct ConfigPaths {
    pub configFile: String,
    pub metaFile: String,
    pub userConfigFile: String,
    pub recentFile: String,
}

/// The last component among `segs` that is not `.`, unless it is `..`.
pub open spec fn last_named(segs: Seq<Seq<char>>) -> Option<Seq<char>>
    decreases segs.len(),
{
    if segs.len() == 0 {
        None
    } else if segs.last() == seq!['.'] {
        last_named(segs.drop_last())
    } else if segs.last() == seq!['.', '.'] {
        None
    } else {
        Some(segs.last())
    }
}

/// The last component of a path, when it is a normal one (what
/// `Path::file_name` gives on a Unix path): the pieces between slashes,
/// with empty and `.` pieces left out, end in a name other than `..`.
pub open spec fn base_name(p: Seq<char>) -> Option<Seq<char>> {
    last_named(segments(p))
}

fn is_dot(v: &Vec<char>) -> (r: bool)
    ensures
        r == (v@ == seq!['.']),
{
    if v.len() == 1 && v[0] == '.' {
        assert(v@ =~= seq!['.']);
        true
    } else {
        false
    }
}

fn is_dot_dot(v: &Vec<char>) -> (r: bool)
    ensures
        r == (v@ == seq!['.', '.']),
{
    if v.len() == 2 && v[0] == '.' && v[1] == '.' {
        assert(v@ =~= seq!['.', '.']);
        true
    } else {
        false
    }
}

fn file_name_of(path: &str) -> (r: Option<String>)
    ensures
        match r {
            Some(s) => base_name(path@) == Some(s@),
            None => base_name(path@) is None,
        },
{
    let segs = segments_of(&chars_of(path));
    let mut n = segs.len();
    assert(line_views(segs@).take(n as int) == line_views(segs@));
    while n > 0
        invariant
            n <= segs.len(),
            line_views(segs@) == segments(path@),
            last_named(line_views(segs@)) == last_named(line_views(segs@).take(n as int)),
        decreases n,
    {
        let ghost t = line_views(segs@).take(n as int);
        assert(t.last() == segs@[n - 1]@);
        assert(t.drop_last() == line_views(segs@).take(n - 1));
        if is_dot(&segs[n - 1]) {
            n = n - 1;
        } else if is_dot_dot(&segs[n - 1]) {
            return None;
        } else {
            return Some(string_from(&segs[n - 1]));
        }
    }
    None
}

/// The keyword a path gives: its last component, else `InvalidPath`.
pub fn DeriveKeywordFromPath(path: &str) -> (r: Result<String, StoreError>)
    ensures
        match base_name(path@) {
            Some(k) => r matches Ok(s) && s@ == k,
            None => r matches Err(e) && e is InvalidPath,
        },
{
    match file_name_of(path) {
        Some(s) => Ok(s),
        None => Err(StoreError::InvalidPath(String::from_str(path))),
    }
}

/// Where one of the store's files lives: the value the environment gives
/// for it when that is set and not empty, else `defaultName` under `home`.
pub fn ResolvePath(envValue: Option<String>, home: &str, defaultName: &str) -> (r: String)
    ensures
        r@ == match envValue {
            Some(v) => if v@.len() > 0 {
                v@
            } else {
                join_path(home@, defaultName@)
            },
            None => join_path(home@, defaultName@),
        },
{
    match envValue {
        Some(v) => {
            if chars_of(v.as_str()).len() > 0 {
                return v;
            }
        },
        None => {},
    }
    let mut out = chars_of(home);
    let name = chars_of(defaultName);
    if name.len() > 0 {
        if out.len() > 0 && out[out.len() - 1] != '/' {
            out.push('/');
        }
        append_chars(&mut out, &name);
    }
    string_from(&out)
}

/// The keyword and path of an add: both given, or the path alone, whose
/// last component is then the keyword. `InvalidPath` when no path is given
/// or it has no last component.
pub fn ParseAddArgs(values: &Vec<String>) -> (r: Result<(String, String), StoreError>)
    ensures
        values.len() == 0 ==> (r matches Err(e) && e is InvalidPath),
        values.len() == 1 ==> match base_name(values@[0]@) {
            Some(k) => r matches Ok(kp) && kp.0@ == k && kp.1@ == values@[0]@,
            None => r matches Err(e) && e is InvalidPath,
        },
        values.len() >= 2 ==> (r matches Ok(kp) && kp.0@ == values@[0]@ && kp.1@ == values@[1]@),
{
    if values.len() == 0 {
        return Err(StoreError::InvalidPath(String::new()));
    }
    if values.len() == 1 {
        let keyword = DeriveKeywordFromPath(values[0].as_str())?;
        return Ok((keyword, values[0].clone()));
    }
    Ok((values[0].clone(), values[1].clone()))
}

} // verus!
