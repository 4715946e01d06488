use vstd::prelude::*;
use vstd::string::StrSliceExecFns;

verus! {

/// Relies on String::push: the character is appended.
#[verifier::external_body]
pub(crate) fn push_char(s: &mut String, c: char)
    ensures
        final(s)@ == old(s)@.push(c),
{
    s.push(c)
}

/// `t` with `c` inserted before the char at index `i`.
pub fn text_insert(t: &String, i: usize, c: char) -> (r: String)
    requires
        i <= t@.len(),
    ensures
        r@ == t@.insert(i as int, c),
{
    let s = t.as_str();
    let n = s.unicode_len();
    let mut r = String::new();
    let mut k: usize = 0;
    while k < n
        invariant
            n == t@.len(),
            s@ == t@,
            i <= n,
            0 <= k <= n,
            k <= i ==> r@ == t@.subrange(0, k as int),
            k > i ==> r@ == t@.subrange(0, i as int).push(c) + t@.subrange(i as int, k as int),
        decreases n - k,
    {
        if k == i {
            push_char(&mut r, c);
        }
        let ch = s.get_char(k);
        push_char(&mut r, ch);
        proof {
            if k + 1 <= i {
                assert(r@ =~= t@.subrange(0, k + 1));
            } else {
                assert(r@ =~= t@.subrange(0, i as int).push(c) + t@.subrange(i as int, k + 1));
            }
        }
        k = k + 1;
    }
    if i == n {
        push_char(&mut r, c);
    }
    proof {
        assert(r@ =~= t@.insert(i as int, c));
    }
    r
}

/// `t` without the char at index `i`.
pub fn text_remove(t: &String, i: usize) -> (r: String)
    requires
        i < t@.len(),
    ensures
        r@ == t@.remove(i as int),
{
    let s = t.as_str();
    let n = s.unicode_len();
    let mut r = String::new();
    let mut k: usize = 0;
    while k < n
        invariant
            n == t@.len(),
            s@ == t@,
            i < n,
            0 <= k <= n,
            k <= i ==> r@ == t@.subrange(0, k as int),
            k > i ==> r@ == t@.subrange(0, i as int) + t@.subrange(i + 1, k as int),
        decreases n - k,
    {
        if k != i {
            let ch = s.get_char(k);
            push_char(&mut r, ch);
        }
        proof {
            if k + 1 <= i {
                assert(r@ =~= t@.subrange(0, k + 1));
            } else {
                assert(r@ =~= t@.subrange(0, i as int) + t@.subrange(i + 1, k + 1));
            }
        }
        k = k + 1;
    }
    proof {
        assert(r@ =~= t@.remove(i as int));
    }
    r
}

} // verus!
