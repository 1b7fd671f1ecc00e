//! Sorting the key-name listing.

use vstd::prelude::*;
use vstd::multiset::Multiset;
use vstd::utf8::encode_utf8;

verus! {

/// Lexicographic order on byte strings: byte-wise, a strict prefix first.
pub open spec fn lex_le(a: Seq<u8>, b: Seq<u8>) -> bool
    decreases a.len(),
{
    if a.len() == 0 {
        true
    } else if b.len() == 0 {
        false
    } else if a[0] < b[0] {
        true
    } else if a[0] > b[0] {
        false
    } else {
        lex_le(a.skip(1), b.skip(1))
    }
}

/// The lexicographic order is total.
proof fn lemma_lex_total(a: Seq<u8>, b: Seq<u8>)
    ensures
        lex_le(a, b) || lex_le(b, a),
    decreases a.len(),
{
    if a.len() > 0 && b.len() > 0 && a[0] == b[0] {
        lemma_lex_total(a.skip(1), b.skip(1));
    }
}

/// The UTF-8 bytes of a string value.
pub open spec fn name_bytes(s: Seq<char>) -> Seq<u8> {
    encode_utf8(s)
}

/// Byte-wise lexicographic comparison of two byte slices.
fn bytes_le(a: &[u8], b: &[u8]) -> (r: bool)
    ensures
        r == lex_le(a@, b@),
{
    let n = if a.len() < b.len() {
        a.len()
    } else {
        b.len()
    };
    let mut i: usize = 0;
    proof {
        assert(a@.skip(0) =~= a@);
        assert(b@.skip(0) =~= b@);
    }
    while i < n
        invariant
            i <= n,
            n <= a@.len(),
            n <= b@.len(),
            n == if a@.len() < b@.len() {
                a@.len()
            } else {
                b@.len()
            },
            lex_le(a@, b@) == lex_le(a@.skip(i as int), b@.skip(i as int)),
        decreases n - i,
    {
        let x = a[i];
        let y = b[i];
        if x < y {
            proof {
                assert(a@.skip(i as int)[0] == x);
                assert(b@.skip(i as int)[0] == y);
            }
            return true;
        }
        if x > y {
            proof {
                assert(a@.skip(i as int)[0] == x);
                assert(b@.skip(i as int)[0] == y);
            }
            return false;
        }
        proof {
            assert(a@.skip(i as int)[0] == x);
            assert(b@.skip(i as int)[0] == y);
            assert(a@.skip(i as int).skip(1) =~= a@.skip(i + 1 as int));
            assert(b@.skip(i as int).skip(1) =~= b@.skip(i + 1 as int));
        }
        i += 1;
    }
    proof {
        if a@.len() <= b@.len() {
            assert(a@.skip(i as int).len() == 0);
        } else {
            assert(b@.skip(i as int).len() == 0);
            assert(a@.skip(i as int).len() > 0);
        }
    }
    a.len() <= b.len()
}

/// Lexicographic comparison of two key names, by their UTF-8 bytes.
fn name_le(a: &String, b: &String) -> (r: bool)
    ensures
        r == lex_le(name_bytes(a@), name_bytes(b@)),
{
    bytes_le(a.as_str().as_bytes(), b.as_str().as_bytes())
}

/// The names in the list, as character sequences.
pub open spec fn name_views(s: Seq<String>) -> Seq<Seq<char>> {
    s.map_values(|n: String| n@)
}

/// Adjacent names stand in lexicographic order of their UTF-8 bytes.
pub open spec fn names_sorted(s: Seq<Seq<char>>) -> bool {
    forall|i: int|
        0 <= i && i + 1 < s.len() ==> lex_le(name_bytes(#[trigger] s[i]), name_bytes(s[i + 1]))
}

/// Sorts a list of key names lexicographically by their UTF-8 bytes,
/// keeping exactly the given names.
pub fn list_keys(names: Vec<String>) -> (r: Vec<String>)
    ensures
        names_sorted(name_views(r@)),
        name_views(r@).to_multiset() == name_views(names@).to_multiset(),
{
    let ghost whole = name_views(names@).to_multiset();
    let mut rest = names;
    let mut r: Vec<String> = Vec::new();
    proof {
        broadcast use vstd::seq_lib::group_to_multiset_ensures;

        assert(name_views(r@) =~= Seq::<Seq<char>>::empty());
        assert(name_views(r@).to_multiset().add(name_views(rest@).to_multiset()) =~= whole);
    }
    while rest.len() > 0
        invariant
            names_sorted(name_views(r@)),
            name_views(r@).to_multiset().add(name_views(rest@).to_multiset()) == whole,
        decreases rest.len(),
    {
        let ghost r_pre = r@;
        let ghost rest_pre = rest@;
        let s = rest.remove(0);
        let mut pos: usize = 0;
        while pos < r.len() && name_le(&r[pos], &s)
            invariant
                pos <= r@.len(),
                r@ == r_pre,
                forall|j: int| 0 <= j < pos ==> lex_le(
                    name_bytes(#[trigger] r@[j]@),
                    name_bytes(s@),
                ),
            decreases r@.len() - pos,
        {
            pos += 1;
        }
        proof {
            if pos < r@.len() {
                lemma_lex_total(name_bytes(r@[pos as int]@), name_bytes(s@));
                assert(lex_le(name_bytes(s@), name_bytes(r@[pos as int]@)));
            }
        }
        r.insert(pos, s);
        proof {
            broadcast use vstd::seq_lib::group_to_multiset_ensures;

            r_pre.insert_ensures(pos as int, s);
            assert(names_sorted(name_views(r@))) by {
                assert forall|i: int|
                    0 <= i && i + 1 < name_views(r@).len() implies lex_le(
                    name_bytes(#[trigger] name_views(r@)[i]),
                    name_bytes(name_views(r@)[i + 1]),
                ) by {
                    if i + 1 < pos {
                        assert(r@[i] == r_pre[i] && r@[i + 1] == r_pre[i + 1]);
                        assert(lex_le(
                            name_bytes(name_views(r_pre)[i]),
                            name_bytes(name_views(r_pre)[i + 1]),
                        ));
                    } else if i + 1 == pos {
                        assert(r@[i] == r_pre[i]);
                    } else if i + 1 == pos + 1 {
                        if pos < r_pre.len() {
                            assert(r@[i + 1] == r_pre[pos as int]);
                        }
                    } else {
                        assert(r@[i] == r_pre[i - 1] && r@[i + 1] == r_pre[i]);
                        assert(lex_le(
                            name_bytes(name_views(r_pre)[i - 1]),
                            name_bytes(name_views(r_pre)[i]),
                        ));
                    }
                }
            }
            assert(name_views(r@).to_multiset().add(name_views(rest@).to_multiset()) =~= whole)
                by {
                assert(name_views(r@) =~= name_views(r_pre).insert(pos as int, s@));
                assert(name_views(rest_pre) =~= name_views(rest@).insert(0, s@)) by {
                    assert(name_views(rest_pre).remove(0) =~= name_views(rest@));
                    assert(name_views(rest_pre).remove(0).insert(0, name_views(rest_pre)[0])
                        =~= name_views(rest_pre));
                }
                assert(name_views(r@).to_multiset() =~= name_views(r_pre).to_multiset().insert(
                    s@,
                ));
                assert(name_views(rest_pre).to_multiset() =~= name_views(
                    rest@,
                ).to_multiset().insert(s@));
                assert(name_views(r_pre).to_multiset().add(
                    name_views(rest_pre).to_multiset(),
                ) =~= whole);
                assert(name_views(r_pre).to_multiset().insert(s@).add(
                    name_views(rest@).to_multiset(),
                ) =~= name_views(r_pre).to_multiset().add(
                    name_views(rest@).to_multiset().insert(s@),
                ));
            }
        }
    }
    proof {
        broadcast use vstd::seq_lib::group_to_multiset_ensures;

        assert(name_views(rest@).to_multiset() =~= Multiset::<Seq<char>>::empty()) by {
            assert(name_views(rest@).len() == 0);
            assert(name_views(rest@) =~= Seq::<Seq<char>>::empty());
        }
        assert(name_views(r@).to_multiset() =~= whole);
    }
    r
}

} // verus!
