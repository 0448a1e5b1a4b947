//! Names in the attachment trash: a removed attachment file or directory is
//! renamed into `.attachment-trash` beside the attachments, under its own name,
//! or under `name.1`, `name.2`, ... when that name is taken there.

use vstd::prelude::*;

use crate::models::strings_view;
use crate::text::{chars_eq, digit_char, digits_value, from_chars, nat_digits, push_all, to_chars, u64_digits};

verus! {

/// The path of the trash directory: `.attachment-trash` joined onto the app data
/// directory, with `/` between them unless the directory is empty or already
/// ends with one (as `Path::join` joins a relative name on Unix).
pub open spec fn trash_dir_spec(app_data_dir: Seq<char>) -> Seq<char> {
    if app_data_dir.len() == 0 {
        ".attachment-trash"@
    } else if app_data_dir.last() == '/' {
        app_data_dir + ".attachment-trash"@
    } else {
        app_data_dir + seq!['/'] + ".attachment-trash"@
    }
}

/// The trash directory inside the app data directory; it is a sibling of
/// `attachments/`, so emptying it never touches a live attachment.
pub fn trash_dir(app_data_dir: &str) -> (r: String)
    ensures
        r@ == trash_dir_spec(app_data_dir@),
{
    let mut v = to_chars(app_data_dir);
    let n = v.len();
    if n > 0 && v[n - 1] != '/' {
        v.push('/');
    }
    let name = to_chars(".attachment-trash");
    push_all(&mut v, &name);
    proof {
        if n == 0 {
            assert(v@ =~= ".attachment-trash"@);
        }
    }
    from_chars(&v)
}

/// The `n`-th name tried for `label` in the trash: the label itself, then
/// `label.1`, `label.2`, ...
pub open spec fn trash_candidate(label: Seq<char>, n: nat) -> Seq<char> {
    if n == 0 {
        label
    } else {
        label + seq!['.'] + nat_digits(n)
    }
}

/// The name `label` takes in a trash that already holds the names `taken`: the
/// first candidate that is not taken.
pub open spec fn is_first_free(label: Seq<char>, taken: Seq<Seq<char>>, name: Seq<char>) -> bool {
    exists|n: nat|
        name == #[trigger] trash_candidate(label, n) && !taken.contains(name) && forall|m: nat|
            m < n ==> taken.contains(#[trigger] trash_candidate(label, m))
}

proof fn lemma_digits_value(n: nat)
    ensures
        digits_value(nat_digits(n)) == n,
        nat_digits(n).len() >= 1,
    decreases n,
{
    let d = (n % 10) as int;
    assert(('0' as u32) + d < 0xD800);
    assert((digit_char(d) as u32) == ('0' as u32) + d);
    if n < 10 {
        assert(nat_digits(n) =~= seq![digit_char(n as int)]);
        assert(nat_digits(n).drop_last() =~= Seq::<char>::empty());
        assert(digits_value(Seq::<char>::empty()) == 0);
        assert(digits_value(nat_digits(n)) == 10 * digits_value(nat_digits(n).drop_last()) + ((nat_digits(n).last() as u32) - ('0' as u32)));
    } else {
        lemma_digits_value(n / 10);
        let s = nat_digits(n);
        assert(s.drop_last() =~= nat_digits(n / 10));
        assert(s.last() == digit_char(d));
        assert(digits_value(s) == 10 * digits_value(s.drop_last()) + ((s.last() as u32) - ('0' as u32)));
        assert(10 * (n / 10) + n % 10 == n);
    }
}

/// Different numbers give different candidate names.
proof fn lemma_candidates_differ(label: Seq<char>, a: nat, b: nat)
    requires
        a != b,
    ensures
        trash_candidate(label, a) != trash_candidate(label, b),
{
    lemma_digits_value(a);
    lemma_digits_value(b);
    let ca = trash_candidate(label, a);
    let cb = trash_candidate(label, b);
    if a != 0 && b != 0 && ca == cb {
        let k: int = label.len() as int + 1;
        assert(ca.skip(k) =~= nat_digits(a));
        assert(cb.skip(k) =~= nat_digits(b));
    }
}

/// Among the first `taken.len() + 1` candidates one is free.
proof fn lemma_some_candidate_free(label: Seq<char>, taken: Seq<Seq<char>>, n: nat)
    requires
        forall|m: nat| m <= n ==> taken.contains(#[trigger] trash_candidate(label, m)),
    ensures
        n < taken.len(),
{
    let chain = Seq::new((n + 1) as nat, |i: int| trash_candidate(label, i as nat));
    assert(chain.no_duplicates()) by {
        assert forall|a: int, b: int| 0 <= a < chain.len() && 0 <= b < chain.len() && a != b implies chain[a]
            != chain[b] by {
            lemma_candidates_differ(label, a as nat, b as nat);
        }
    }
    chain.unique_seq_to_set();
    taken.lemma_cardinality_of_set();
    assert(chain.to_set().subset_of(taken.to_set())) by {
        assert forall|v: Seq<char>| chain.to_set().contains(v) implies taken.to_set().contains(v) by {
            let i = choose|i: int| 0 <= i < chain.len() && chain[i] == v;
            assert(taken.contains(trash_candidate(label, i as nat)));
        }
    }
    vstd::seq_lib::seq_to_set_is_finite(taken);
    vstd::set_lib::lemma_len_subset(chain.to_set(), taken.to_set());
}

fn candidate(label: &Vec<char>, n: u64) -> (r: Vec<char>)
    ensures
        r@ == trash_candidate(label@, n as nat),
{
    let mut v: Vec<char> = Vec::new();
    push_all(&mut v, label);
    if n > 0 {
        v.push('.');
        let d = u64_digits(n);
        push_all(&mut v, &d);
    }
    proof {
        if n == 0 {
            assert(v@ =~= label@);
        }
    }
    v
}

fn is_taken(name: &Vec<char>, taken: &Vec<String>) -> (r: bool)
    ensures
        r == strings_view(taken@).contains(name@),
{
    let ghost tv = strings_view(taken@);
    let mut i: usize = 0;
    while i < taken.len()
        invariant
            i <= taken.len(),
            tv == strings_view(taken@),
            forall|k: int| 0 <= k < i ==> tv[k] != name@,
        decreases taken.len() - i,
    {
        let t = to_chars(taken[i].as_str());
        if chars_eq(&t, name) {
            assert(tv[i as int] == name@);
            return true;
        }
        i = i + 1;
    }
    false
}

/// The name a removed item labelled `label` takes in a trash that already holds
/// the names `taken`: `label` when it is free, else `label.n` for the least
/// `n >= 1` that is free.
pub fn unique_trash_name(label: &str, taken: &Vec<String>) -> (r: String)
    ensures
        is_first_free(label@, strings_view(taken@), r@),
{
    let ghost tv = strings_view(taken@);
    let lc = to_chars(label);
    let mut n: usize = 0;
    loop
        invariant
            n <= taken.len(),
            tv == strings_view(taken@),
            tv.len() == taken.len(),
            lc@ == label@,
            forall|m: nat| m < n ==> tv.contains(#[trigger] trash_candidate(label@, m)),
        decreases taken.len() - n,
    {
        let c = candidate(&lc, n as u64);
        if !is_taken(&c, taken) {
            return from_chars(&c);
        }
        proof {
            assert forall|m: nat| m <= n implies tv.contains(#[trigger] trash_candidate(label@, m)) by {
                if m < n {
                } else {
                    assert(m == n as nat);
                }
            }
            lemma_some_candidate_free(label@, tv, n as nat);
        }
        n = n + 1;
    }
}

} // verus!
