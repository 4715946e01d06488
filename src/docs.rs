use vstd::prelude::*;
use vstd::string::StrSliceExecFns;

use crate::text::push_char;

verus! {

/// How a document is known: by the file it came from, or by the label of
/// an auxiliary document the editor makes itself.
#[derive(Clone, Debug)]
pub enum DocName {
    File(String),
    Auxiliary(String),
}

/// Why a document could not be opened.
#[derive(Clone, Copy, Debug, PartialEq, Eq, Structural)]
pub enum DocError {
    /// The path has no extension.
    NoExtension,
    /// No language is registered for the extension.
    UnknownExtension,
    /// The tree is not in the forest.
    InvalidTree,
}

/// The position of the last `c` in `p` before `upto`; -1 if none.
pub open spec fn last_pos(p: Seq<char>, c: char, upto: int) -> int
    decreases upto,
{
    if upto <= 0 {
        -1
    } else if p[upto - 1] == c {
        upto - 1
    } else {
        last_pos(p, c, upto - 1)
    }
}

/// The extension of a path: what follows the last `.` of its last
/// component, when that `.` does not start the component.
pub open spec fn extension_of(p: Seq<char>) -> Option<Seq<char>> {
    let start = last_pos(p, '/', p.len() as int) + 1;
    let dot = last_pos(p, '.', p.len() as int);
    if dot > start {
        Some(p.subrange(dot + 1, p.len() as int))
    } else {
        None
    }
}

proof fn lemma_last_pos_bounds(p: Seq<char>, c: char, upto: int)
    requires
        0 <= upto <= p.len(),
    ensures
        -1 <= last_pos(p, c, upto) < upto,
        last_pos(p, c, upto) >= 0 ==> p[last_pos(p, c, upto)] == c,
    decreases upto,
{
    if upto > 0 && p[upto - 1] != c {
        lemma_last_pos_bounds(p, c, upto - 1);
    }
}

pub open spec fn pos_of(p: Option<usize>) -> int {
    match p {
        Some(x) => x as int,
        None => -1,
    }
}

/// The extension of `path`, as `extension_of` says.
pub fn path_extension(path: &String) -> (r: Option<String>)
    ensures
        r matches Some(e) ==> extension_of(path@) == Some(e@),
        r is None ==> extension_of(path@) is None,
{
    let s = path.as_str();
    let n = s.unicode_len();
    let mut slash: Option<usize> = None;
    let mut dot: Option<usize> = None;
    let mut i: usize = 0;
    while i < n
        invariant
            n == path@.len(),
            s@ == path@,
            0 <= i <= n,
            pos_of(slash) == last_pos(path@, '/', i as int),
            pos_of(dot) == last_pos(path@, '.', i as int),
        decreases n - i,
    {
        let c = s.get_char(i);
        if c == '/' {
            slash = Some(i);
        }
        if c == '.' {
            dot = Some(i);
        }
        i = i + 1;
    }
    let d = match dot {
        None => {
            return None;
        },
        Some(d) => d,
    };
    proof {
        lemma_last_pos_bounds(path@, '.', n as int);
        lemma_last_pos_bounds(path@, '/', n as int);
    }
    let start = match slash {
        None => 0,
        Some(x) => x + 1,
    };
    if d <= start {
        return None;
    }
    let mut out = String::new();
    let mut k: usize = d + 1;
    while k < n
        invariant
            n == path@.len(),
            s@ == path@,
            d + 1 <= k <= n,
            d < n,
            out@ == path@.subrange(d + 1, k as int),
        decreases n - k,
    {
        push_char(&mut out, s.get_char(k));
        proof {
            assert(out@ =~= path@.subrange(d + 1, k + 1));
        }
        k = k + 1;
    }
    Some(out)
}

/// The language registered for an extension, if any: the first
/// registration counts.
pub open spec fn language_for(table: Seq<(String, String)>, ext: Seq<char>) -> Option<Seq<char>>
    decreases table.len(),
{
    if table.len() == 0 {
        None
    } else if table[0].0@ == ext {
        Some(table[0].1@)
    } else {
        language_for(table.drop_first(), ext)
    }
}

/// Look up the language registered for `ext`.
pub fn lookup_extension<'a>(table: &'a Vec<(String, String)>, ext: &String) -> (r: Option<&'a String>)
    ensures
        r matches Some(l) ==> language_for(table@, ext@) == Some(l@),
        r is None ==> language_for(table@, ext@) is None,
{
    let mut i: usize = 0;
    proof {
        assert(table@.subrange(0, table@.len() as int) =~= table@);
    }
    while i < table.len()
        invariant
            0 <= i <= table.len(),
            language_for(table@, ext@) == language_for(table@.subrange(i as int, table@.len() as int), ext@),
        decreases table.len() - i,
    {
        proof {
            let rest = table@.subrange(i as int, table@.len() as int);
            assert(rest.drop_first() =~= table@.subrange(i + 1, table@.len() as int));
        }
        if table[i].0 == *ext {
            return Some(&table[i].1);
        }
        i = i + 1;
    }
    None
}

} // verus!
