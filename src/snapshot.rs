//! Snapshot text of a durable cache's state.
//!
//! The state is the sequence of `(key, value)` entries in recency order. Each
//! text is written as `+c` for each of its characters `c`, followed by `.`;
//! an entry is its key's text followed by its value's text, and the snapshot
//! is its entries one after another, least recently used first. The format
//! needs no escaping, and a reader can always tell where a text ends.
use vstd::prelude::*;

verus! {

/// Each character of `s` preceded by `+`.
pub open spec fn plus_form(s: Seq<char>) -> Seq<char> {
    Seq::new(
        2 * s.len(),
        |i: int|
            if i % 2 == 0 {
                '+'
            } else {
                s[i / 2]
            },
    )
}

/// The snapshot form of one text.
pub open spec fn enc_text(s: Seq<char>) -> Seq<char> {
    plus_form(s).push('.')
}

/// The snapshot form of one entry.
pub open spec fn enc_entry(e: (Seq<char>, Seq<char>)) -> Seq<char> {
    enc_text(e.0) + enc_text(e.1)
}

/// The snapshot of the entry sequence `es`.
pub open spec fn enc_entries(es: Seq<(Seq<char>, Seq<char>)>) -> Seq<char>
    decreases es.len(),
{
    if es.len() == 0 {
        Seq::empty()
    } else {
        enc_entry(es[0]) + enc_entries(es.drop_first())
    }
}

/// Whether `t` is the snapshot of some entry sequence.
pub open spec fn is_snapshot(t: Seq<char>) -> bool {
    exists|es: Seq<(Seq<char>, Seq<char>)>| enc_entries(es) == t
}

/// Whether `a` is a prefix of `x`.
pub open spec fn is_prefix(a: Seq<char>, x: Seq<char>) -> bool {
    a.len() <= x.len() && x.subrange(0, a.len() as int) == a
}

/// View of a vector of string pairs as an entry sequence.
pub open spec fn pairs_view(v: Seq<(String, String)>) -> Seq<(Seq<char>, Seq<char>)> {
    v.map_values(|e: (String, String)| (e.0@, e.1@))
}

/// Relies on `String::push`: appends one character at the end of the string.
#[verifier::external_body]
fn push_char(s: &mut String, c: char)
    ensures
        final(s)@ == old(s)@.push(c),
{
    s.push(c);
}

/// At most one text's snapshot form is a prefix of a given sequence.
pub proof fn lemma_text_prefix_free(a: Seq<char>, b: Seq<char>, x: Seq<char>)
    requires
        is_prefix(enc_text(a), x),
        is_prefix(enc_text(b), x),
    ensures
        a == b,
{
    assert forall|i: int| 0 <= i < a.len() && 0 <= i < b.len() implies a[i] == b[i] by {
        assert(enc_text(a)[2 * i + 1] == x[2 * i + 1]);
        assert(enc_text(b)[2 * i + 1] == x[2 * i + 1]);
        assert((2 * i + 1) / 2 == i);
    }
    if a.len() < b.len() {
        let n: int = 2 * (a.len() as int);
        assert(enc_text(a)[n] == x[n]);
        assert(enc_text(b)[n] == x[n]);
        assert(n % 2 == 0);
    } else if b.len() < a.len() {
        let n: int = 2 * (b.len() as int);
        assert(enc_text(a)[n] == x[n]);
        assert(enc_text(b)[n] == x[n]);
        assert(n % 2 == 0);
    }
    assert(a =~= b);
}

/// Appending an entry appends its snapshot form.
pub proof fn lemma_enc_entries_push(es: Seq<(Seq<char>, Seq<char>)>, e: (Seq<char>, Seq<char>))
    ensures
        enc_entries(es.push(e)) == enc_entries(es) + enc_entry(e),
    decreases es.len(),
{
    if es.len() == 0 {
        assert(es.push(e).drop_first() =~= Seq::<(Seq<char>, Seq<char>)>::empty());
        assert(enc_entries(es.push(e).drop_first()) == Seq::<char>::empty());
        assert(es.push(e)[0] == e);
        assert(enc_entries(es) == Seq::<char>::empty());
        assert(enc_entries(es.push(e)) =~= enc_entries(es) + enc_entry(e));
    } else {
        lemma_enc_entries_push(es.drop_first(), e);
        assert(es.push(e).drop_first() =~= es.drop_first().push(e));
        assert(enc_entries(es.push(e)) =~= enc_entries(es) + enc_entry(e));
    }
}

/// Different entry sequences have different snapshots.
pub proof fn lemma_enc_entries_injective(
    es1: Seq<(Seq<char>, Seq<char>)>,
    es2: Seq<(Seq<char>, Seq<char>)>,
)
    requires
        enc_entries(es1) == enc_entries(es2),
    ensures
        es1 == es2,
    decreases es1.len(),
{
    let x = enc_entries(es1);
    if es1.len() == 0 {
        if es2.len() != 0 {
            assert(enc_entries(es2).len() > 0);
        }
        assert(es1 =~= es2);
    } else {
        if es2.len() == 0 {
            assert(x.len() > 0);
        }
        let (k1, v1) = es1[0];
        let (k2, v2) = es2[0];
        assert(x =~= enc_text(k1) + (enc_text(v1) + enc_entries(es1.drop_first())));
        assert(x =~= enc_text(k2) + (enc_text(v2) + enc_entries(es2.drop_first())));
        assert(x.subrange(0, enc_text(k1).len() as int) =~= enc_text(k1));
        assert(x.subrange(0, enc_text(k2).len() as int) =~= enc_text(k2));
        lemma_text_prefix_free(k1, k2, x);
        let y = x.subrange(enc_text(k1).len() as int, x.len() as int);
        assert(y =~= enc_text(v1) + enc_entries(es1.drop_first()));
        assert(y =~= enc_text(v2) + enc_entries(es2.drop_first()));
        assert(y.subrange(0, enc_text(v1).len() as int) =~= enc_text(v1));
        assert(y.subrange(0, enc_text(v2).len() as int) =~= enc_text(v2));
        lemma_text_prefix_free(v1, v2, y);
        let z = y.subrange(enc_text(v1).len() as int, y.len() as int);
        assert(z =~= enc_entries(es1.drop_first()));
        assert(z =~= enc_entries(es2.drop_first()));
        lemma_enc_entries_injective(es1.drop_first(), es2.drop_first());
        assert(es1 =~= es2.drop_first().insert(0, es2[0]));
        assert(es2 =~= es2.drop_first().insert(0, es2[0]));
    }
}

/// Appends the snapshot form of `s` to `out`.
fn write_text(out: &mut String, s: &str)
    ensures
        final(out)@ == old(out)@ + enc_text(s@),
{
    let n = s.unicode_len();
    let mut i: usize = 0;
    while i < n
        invariant
            n == s@.len(),
            i <= n,
            out@ == old(out)@ + plus_form(s@.subrange(0, i as int)),
        decreases n - i,
    {
        let c = s.get_char(i);
        let ghost before = out@;
        push_char(out, '+');
        push_char(out, c);
        i = i + 1;
        assert(out@ =~= old(out)@ + plus_form(s@.subrange(0, i as int))) by {
            assert forall|j: int| 0 <= j < 2 * i - 2 implies #[trigger] out@[old(out)@.len() + j]
                == before[old(out)@.len() + j] by {}
            assert((2 * i - 1) / 2 == i - 1);
            assert((2 * i - 2) % 2 == 0);
        }
    }
    push_char(out, '.');
    assert(s@.subrange(0, n as int) =~= s@);
    assert(out@ =~= old(out)@ + enc_text(s@));
}

/// The snapshot of `entries`, given in recency order.
pub fn encode(entries: &Vec<(String, String)>) -> (r: String)
    ensures
        r@ == enc_entries(pairs_view(entries@)),
{
    let mut out = String::new();
    let n = entries.len();
    let mut i: usize = 0;
    while i < n
        invariant
            n == entries@.len(),
            i <= n,
            out@ == enc_entries(pairs_view(entries@.subrange(0, i as int))),
        decreases n - i,
    {
        let ghost before = entries@.subrange(0, i as int);
        write_text(&mut out, entries[i].0.as_str());
        write_text(&mut out, entries[i].1.as_str());
        proof {
            let e = entries@[i as int];
            lemma_enc_entries_push(pairs_view(before), (e.0@, e.1@));
            assert(pairs_view(entries@.subrange(0, i + 1)) =~= pairs_view(before).push(
                (e.0@, e.1@),
            ));
        }
        i = i + 1;
    }
    assert(entries@.subrange(0, n as int) =~= entries@);
    out
}

/// Where the `+`-form of `acc` and the snapshot form of `s` are both
/// prefixes of `x`, `s` extends `acc`, and the character after the `+`-form
/// tells whether `s` ends there.
proof fn lemma_partial_text(x: Seq<char>, acc: Seq<char>, s: Seq<char>)
    requires
        is_prefix(plus_form(acc), x),
        is_prefix(enc_text(s), x),
    ensures
        acc.len() <= s.len(),
        s.len() == acc.len() ==> x.len() > 2 * acc.len() && x[2 * (acc.len() as int)] == '.',
        s.len() > acc.len() ==> x.len() > 2 * acc.len() + 1 && x[2 * (acc.len() as int)] == '+',
{
    let m: int = 2 * (acc.len() as int);
    if s.len() < acc.len() {
        let n: int = 2 * (s.len() as int);
        assert(enc_text(s)[n] == x[n]);
        assert(plus_form(acc)[n] == x[n]);
        assert(n % 2 == 0);
    } else if s.len() == acc.len() {
        assert(enc_text(s)[m] == x[m]);
    } else {
        assert(enc_text(s)[m] == x[m]);
        assert(m % 2 == 0);
    }
}

/// Reads the snapshot form of one text at character `p` of `t`; returns the
/// text and the position just after it.
fn read_text(t: &str, n: usize, p: usize) -> (r: Option<(String, usize)>)
    requires
        n == t@.len(),
        p <= n,
    ensures
        match r {
            Some((s, q)) => p < q <= n && t@.subrange(p as int, q as int) == enc_text(s@),
            None => forall|s: Seq<char>|
                !is_prefix(#[trigger] enc_text(s), t@.subrange(p as int, n as int)),
        },
{
    let ghost x = t@.subrange(p as int, n as int);
    let mut out = String::new();
    let mut i: usize = p;
    assert(plus_form(out@) =~= Seq::<char>::empty());
    assert(x.subrange(0, 0) =~= Seq::<char>::empty());
    loop
        invariant
            n == t@.len(),
            p <= i <= n,
            x == t@.subrange(p as int, n as int),
            i == p + 2 * out@.len(),
            is_prefix(plus_form(out@), x),
        decreases n - i,
    {
        if i >= n {
            proof {
                assert forall|s: Seq<char>| !is_prefix(#[trigger] enc_text(s), x) by {
                    if is_prefix(enc_text(s), x) {
                        lemma_partial_text(x, out@, s);
                    }
                }
            }
            return None;
        }
        let c = t.get_char(i);
        assert(x[i - p] == c);
        if c == '.' {
            assert(t@.subrange(p as int, i + 1) =~= enc_text(out@)) by {
                assert(x.subrange(0, i - p) =~= plus_form(out@));
                assert forall|j: int| 0 <= j < i - p implies #[trigger] t@.subrange(
                    p as int,
                    i + 1,
                )[j] == plus_form(out@)[j] by {
                    assert(x.subrange(0, i - p)[j] == x[j]);
                }
            }
            return Some((out, i + 1));
        }
        if c != '+' || i + 1 >= n {
            proof {
                assert forall|s: Seq<char>| !is_prefix(#[trigger] enc_text(s), x) by {
                    if is_prefix(enc_text(s), x) {
                        lemma_partial_text(x, out@, s);
                    }
                }
            }
            return None;
        }
        let d = t.get_char(i + 1);
        assert(x[i + 1 - p] == d);
        let ghost before = out@;
        push_char(&mut out, d);
        assert(x.subrange(0, 2 * out@.len() as int) =~= plus_form(out@)) by {
            assert(x.subrange(0, 2 * before.len() as int) =~= plus_form(before));
            assert forall|j: int| 0 <= j < 2 * out@.len() implies #[trigger] x.subrange(
                0,
                2 * out@.len() as int,
            )[j] == plus_form(out@)[j] by {
                if j < 2 * before.len() {
                    assert(x.subrange(0, 2 * before.len() as int)[j] == x[j]);
                    assert(j / 2 < before.len());
                } else if j == 2 * before.len() {
                } else {
                    assert(j / 2 == before.len());
                }
            }
        }
        i = i + 2;
    }
}

/// Splits a non-empty snapshot into its first key, first value and the
/// remaining entries.
proof fn lemma_snapshot_head(x: Seq<char>) -> (r: (
    Seq<char>,
    Seq<char>,
    Seq<(Seq<char>, Seq<char>)>,
))
    requires
        is_snapshot(x),
        x.len() > 0,
    ensures
        is_prefix(enc_text(r.0), x),
        is_prefix(enc_text(r.1), x.subrange(enc_text(r.0).len() as int, x.len() as int)),
        x.subrange((enc_text(r.0).len() + enc_text(r.1).len()) as int, x.len() as int) == enc_entries(r.2),
{
    let es = choose|es: Seq<(Seq<char>, Seq<char>)>| enc_entries(es) == x;
    assert(es.len() > 0);
    let (k, v) = es[0];
    let rest = es.drop_first();
    assert(x =~= enc_text(k) + (enc_text(v) + enc_entries(rest)));
    let a = enc_text(k).len() as int;
    let b = a + enc_text(v).len();
    assert(x.subrange(0, a) =~= enc_text(k));
    assert(x.subrange(a, x.len() as int).subrange(0, enc_text(v).len() as int) =~= enc_text(v));
    assert(x.subrange(b, x.len() as int) =~= enc_entries(rest));
    (k, v, rest)
}

/// Reads a snapshot back into its entries, in the order they were written.
/// Returns `None` exactly when `t` is the snapshot of no entry sequence.
pub fn decode(t: &str) -> (r: Option<Vec<(String, String)>>)
    ensures
        match r {
            Some(v) => enc_entries(pairs_view(v@)) == t@,
            None => !is_snapshot(t@),
        },
{
    let n = t.unicode_len();
    let mut out: Vec<(String, String)> = Vec::new();
    let mut p: usize = 0;
    assert(pairs_view(out@) =~= Seq::<(Seq<char>, Seq<char>)>::empty());
    assert(t@.subrange(0, 0) =~= Seq::<char>::empty());
    assert(t@.subrange(0, n as int) =~= t@);
    while p < n
        invariant
            n == t@.len(),
            p <= n,
            t@.subrange(0, p as int) == enc_entries(pairs_view(out@)),
            is_snapshot(t@) ==> is_snapshot(t@.subrange(p as int, n as int)),
        decreases n - p,
    {
        let ghost x = t@.subrange(p as int, n as int);
        let (k, q) = match read_text(t, n, p) {
            Some(found) => found,
            None => {
                proof {
                    if is_snapshot(t@) {
                        lemma_snapshot_head(x);
                    }
                }
                return None;
            },
        };
        let ghost y = t@.subrange(q as int, n as int);
        proof {
            assert(y =~= x.subrange(q - p, x.len() as int));
            assert(x.subrange(0, q - p) =~= enc_text(k@));
        }
        let (v, r) = match read_text(t, n, q) {
            Some(found) => found,
            None => {
                proof {
                    if is_snapshot(t@) {
                        let (k0, v0, rest) = lemma_snapshot_head(x);
                        lemma_text_prefix_free(k0, k@, x);
                    }
                }
                return None;
            },
        };
        proof {
            assert(y.subrange(0, r - q) =~= enc_text(v@));
            if is_snapshot(t@) {
                let (k0, v0, rest) = lemma_snapshot_head(x);
                lemma_text_prefix_free(k0, k@, x);
                lemma_text_prefix_free(v0, v@, y);
                assert(enc_text(k@).len() == q - p);
                assert(enc_text(v@).len() == r - q);
                assert(t@.subrange(r as int, n as int) =~= x.subrange(r - p, x.len() as int));
                assert(enc_entries(rest) == t@.subrange(r as int, n as int));
            }
            lemma_enc_entries_push(pairs_view(out@), (k@, v@));
            assert(t@.subrange(0, r as int) =~= t@.subrange(0, p as int) + t@.subrange(
                p as int,
                q as int,
            ) + t@.subrange(q as int, r as int));
            assert(t@.subrange(p as int, q as int) =~= x.subrange(0, q - p));
            assert(t@.subrange(q as int, r as int) =~= y.subrange(0, r - q));
        }
        let ghost old_out = out@;
        out.push((k, v));
        assert(pairs_view(out@) =~= pairs_view(old_out).push((k@, v@)));
        p = r;
    }
    Some(out)
}

} // verus!
