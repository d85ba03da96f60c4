//! File-name logic: which files a step reads and the names it writes.
use vstd::prelude::*;
use vstd::string::StringExecFns;
use crate::text::{chars_of, push_all, string_of_range};

verus! {

/// The position of the last `.` in a file name.
pub open spec fn last_dot(name: Seq<char>) -> Option<int>
    decreases name.len(),
{
    if name.len() == 0 {
        None
    } else if name.last() == '.' {
        Some(name.len() - 1)
    } else {
        last_dot(name.drop_last())
    }
}

/// A name that is no file name: empty, `.` or `..`.
pub open spec fn is_special_name(name: Seq<char>) -> bool {
    name.len() == 0 || name == seq!['.'] || name == seq!['.', '.']
}

/// The extension of a file name (`Path::extension`): the part after the
/// final `.`, unless there is no `.` or the only one starts the name.
pub open spec fn extension_of(name: Seq<char>) -> Option<Seq<char>> {
    if is_special_name(name) {
        None
    } else {
        match last_dot(name) {
            Some(i) => if i > 0 {
                Some(name.skip(i + 1))
            } else {
                None
            },
            None => None,
        }
    }
}

/// The stem of a file name (`Path::file_stem`): the part before the final
/// `.`, or the whole name when there is no `.` or the only one starts it.
pub open spec fn stem_of(name: Seq<char>) -> Option<Seq<char>> {
    if is_special_name(name) {
        None
    } else {
        match last_dot(name) {
            Some(i) => if i > 0 {
                Some(name.take(i))
            } else {
                Some(name)
            },
            None => Some(name),
        }
    }
}

/// The position of the last `.` of `cs`, if any.
fn find_last_dot(cs: &Vec<char>) -> (r: Option<usize>)
    ensures
        match r {
            Some(i) => last_dot(cs@) == Some(i as int) && i < cs@.len(),
            None => last_dot(cs@) is None,
        },
{
    let mut k = cs.len();
    assert(cs@.take(k as int) =~= cs@);
    while k > 0 && cs[k - 1] != '.'
        invariant
            k <= cs.len(),
            last_dot(cs@) == last_dot(cs@.take(k as int)),
        decreases k,
    {
        assert(cs@.take(k as int).drop_last() =~= cs@.take(k - 1));
        k -= 1;
    }
    if k == 0 {
        None
    } else {
        assert(cs@.take(k as int).last() == '.');
        Some(k - 1)
    }
}

fn special_name(cs: &Vec<char>) -> (r: bool)
    ensures
        r == is_special_name(cs@),
{
    let r = cs.len() == 0 || (cs.len() == 1 && cs[0] == '.') || (cs.len() == 2 && cs[0] == '.' && cs[1] == '.');
    proof {
        if cs.len() == 1 && cs[0] == '.' {
            assert(cs@ =~= seq!['.']);
        }
        if cs.len() == 2 && cs[0] == '.' && cs[1] == '.' {
            assert(cs@ =~= seq!['.', '.']);
        }
    }
    r
}

/// `Path::extension` of a file name.
pub fn file_extension(name: &str) -> (r: Option<String>)
    ensures
        match r {
            Some(e) => extension_of(name@) == Some(e@),
            None => extension_of(name@) is None,
        },
{
    let cs = chars_of(name);
    if special_name(&cs) {
        return None;
    }
    match find_last_dot(&cs) {
        Some(i) => {
            if i > 0 {
                assert(i < cs.len());
                let e = string_of_range(&cs, i + 1, cs.len());
                assert(e@ =~= cs@.skip(i + 1));
                Some(e)
            } else {
                None
            }
        },
        None => None,
    }
}

/// `Path::file_stem` of a file name.
pub fn file_stem(name: &str) -> (r: Option<String>)
    ensures
        match r {
            Some(s) => stem_of(name@) == Some(s@),
            None => stem_of(name@) is None,
        },
{
    let cs = chars_of(name);
    if special_name(&cs) {
        return None;
    }
    match find_last_dot(&cs) {
        Some(i) => {
            if i > 0 {
                let s = string_of_range(&cs, 0, i);
                assert(s@ =~= cs@.take(i as int));
                Some(s)
            } else {
                Some(String::from_str(name))
            }
        },
        None => Some(String::from_str(name)),
    }
}

/// Whether a file name has the given extension.
pub fn has_extension(name: &str, ext: &str) -> (r: bool)
    ensures
        r == (extension_of(name@) == Some(ext@)),
{
    match file_extension(name) {
        Some(e) => crate::text::str_eq(e.as_str(), ext),
        None => false,
    }
}

/// The name of the text file made from an HTML file: its stem (`unknown`
/// when it has none or is not valid UTF-8) with `.txt`.
pub fn text_file_name(html_name: Option<&str>) -> (r: String)
    ensures
        r@ == (match html_name {
            Some(n) => match stem_of(n@) {
                Some(s) => s,
                None => "unknown"@,
            },
            None => "unknown"@,
        }) + ".txt"@,
{
    let mut out = match html_name {
        Some(n) => match file_stem(n) {
            Some(s) => s,
            None => String::from_str("unknown"),
        },
        None => String::from_str("unknown"),
    };
    push_all(&mut out, ".txt");
    out
}

/// A file name with an extension is its stem, a `.`, and the extension.
pub proof fn lemma_stem_dot_extension(name: Seq<char>)
    ensures
        extension_of(name) matches Some(e) ==> stem_of(name) matches Some(st) && st + seq!['.'] + e == name,
{
    if let Some(e) = extension_of(name) {
        let i = last_dot(name)->0;
        lemma_last_dot_in_range(name);
        assert(name.take(i) + seq!['.'] + name.skip(i + 1) =~= name);
    }
}

proof fn lemma_last_dot_in_range(name: Seq<char>)
    ensures
        last_dot(name) matches Some(i) ==> 0 <= i < name.len() && name[i] == '.',
    decreases name.len(),
{
    if name.len() > 0 && name.last() != '.' {
        lemma_last_dot_in_range(name.drop_last());
    }
}

} // verus!
