use vstd::prelude::*;
use vstd::relations::{sorted_by, total_ordering};
use vstd::string::StringSliceAdditionalSpecFns;
use vstd::utf8::encode_utf8;
use crate::fingerprint::{base64_decode, base64_encode, bytes_eq, url_safe_decoded, url_safe_encoded};

verus! {

broadcast use vstd::seq_lib::group_to_multiset_ensures;

/// A secret a container reads, with its runtime ID and last update time.
pub struct FullSecret {
    pub id: String,
    pub target: String,
    pub updated_at: i64,
}

/// What the secret fingerprint records of one secret.
pub struct SecretFingerprint {
    pub id: String,
    pub updated_at: i64,
}

/// A fingerprint entry as the bytes of its ID and its update time.
pub type PrintKey = (Seq<u8>, i64);

pub open spec fn full_key(f: FullSecret) -> PrintKey {
    (encode_utf8(f.id@), f.updated_at)
}

pub open spec fn print_key(p: SecretFingerprint) -> PrintKey {
    (encode_utf8(p.id@), p.updated_at)
}

pub open spec fn full_keys(s: Seq<FullSecret>) -> Seq<PrintKey> {
    s.map_values(|f: FullSecret| full_key(f))
}

pub open spec fn print_keys(s: Seq<SecretFingerprint>) -> Seq<PrintKey> {
    s.map_values(|p: SecretFingerprint| print_key(p))
}

/// Byte-wise lexicographic order, the order of `str`.
pub open spec fn lex_le(a: Seq<u8>, b: Seq<u8>) -> bool
    decreases a.len(),
{
    if a.len() == 0 {
        true
    } else if b.len() == 0 {
        false
    } else if a[0] != b[0] {
        a[0] < b[0]
    } else {
        lex_le(a.drop_first(), b.drop_first())
    }
}

/// Entries ordered by ID, then by update time.
pub open spec fn key_le(x: PrintKey, y: PrintKey) -> bool {
    if x.0 == y.0 {
        x.1 <= y.1
    } else {
        lex_le(x.0, y.0)
    }
}

proof fn lemma_lex_total(a: Seq<u8>, b: Seq<u8>)
    ensures
        lex_le(a, b) || lex_le(b, a),
        lex_le(a, b) && lex_le(b, a) ==> a == b,
    decreases a.len(),
{
    if a.len() > 0 && b.len() > 0 && a[0] == b[0] {
        lemma_lex_total(a.drop_first(), b.drop_first());
        if lex_le(a, b) && lex_le(b, a) {
            assert(a =~= seq![a[0]] + a.drop_first());
            assert(b =~= seq![b[0]] + b.drop_first());
        }
    }
    if a.len() == 0 && b.len() == 0 {
        assert(a =~= b);
    }
}

proof fn lemma_lex_trans(a: Seq<u8>, b: Seq<u8>, c: Seq<u8>)
    requires
        lex_le(a, b),
        lex_le(b, c),
    ensures
        lex_le(a, c),
    decreases a.len(),
{
    if a.len() > 0 && b.len() > 0 && c.len() > 0 && a[0] == b[0] && b[0] == c[0] {
        lemma_lex_trans(a.drop_first(), b.drop_first(), c.drop_first());
    }
}

proof fn lemma_lex_refl(a: Seq<u8>)
    ensures
        lex_le(a, a),
    decreases a.len(),
{
    if a.len() > 0 {
        lemma_lex_refl(a.drop_first());
    }
}

/// The entry order is total.
pub proof fn lemma_key_le_total()
    ensures
        total_ordering(|x: PrintKey, y: PrintKey| key_le(x, y)),
{
    let r = |x: PrintKey, y: PrintKey| key_le(x, y);
    assert forall|x: PrintKey| #[trigger] r(x, x) by {
        lemma_lex_refl(x.0);
    }
    assert forall|x: PrintKey, y: PrintKey| #[trigger] r(x, y) && #[trigger] r(y, x) implies x == y by {
        lemma_lex_total(x.0, y.0);
    }
    assert forall|x: PrintKey, y: PrintKey, z: PrintKey| #[trigger] r(x, y) && #[trigger] r(y, z) implies r(x, z) by {
        lemma_lex_total(x.0, y.0);
        lemma_lex_total(y.0, z.0);
        lemma_lex_total(x.0, z.0);
        if x.0 != y.0 && y.0 != z.0 {
            lemma_lex_trans(x.0, y.0, z.0);
        }
    }
    assert forall|x: PrintKey, y: PrintKey| #[trigger] r(x, y) || #[trigger] r(y, x) by {
        lemma_lex_total(x.0, y.0);
    }
}

/// Sorted fingerprints do not depend on the order of the secrets they were
/// made from: two sorted lists of the same entries are equal.
pub proof fn lemma_prints_order_free(a: Seq<PrintKey>, b: Seq<PrintKey>)
    requires
        sorted_by(a, |x: PrintKey, y: PrintKey| key_le(x, y)),
        sorted_by(b, |x: PrintKey, y: PrintKey| key_le(x, y)),
        a.to_multiset() == b.to_multiset(),
    ensures
        a == b,
{
    lemma_key_le_total();
    vstd::seq_lib::lemma_sorted_unique(a, b, |x: PrintKey, y: PrintKey| key_le(x, y));
}

fn id_bytes_le(a: &String, b: &String, ta: i64, tb: i64) -> (r: bool)
    ensures
        r == key_le((encode_utf8(a@), ta), (encode_utf8(b@), tb)),
{
    let sa = a.as_str();
    let sb = b.as_str();
    let x = sa.as_bytes();
    let y = sb.as_bytes();
    assert(x@ == encode_utf8(a@));
    assert(y@ == encode_utf8(b@));
    let ghost xs = x@;
    let ghost ys = y@;
    let mut i: usize = 0;
    assert(xs.subrange(0, xs.len() as int) =~= xs);
    assert(ys.subrange(0, ys.len() as int) =~= ys);
    while i < x.len() && i < y.len()
        invariant
            xs == x@,
            ys == y@,
            xs == encode_utf8(a@),
            ys == encode_utf8(b@),
            i <= x.len(),
            i <= y.len(),
            forall|j: int| 0 <= j < i ==> xs[j] == ys[j],
            lex_le(xs, ys) == lex_le(xs.subrange(i as int, xs.len() as int), ys.subrange(i as int, ys.len() as int)),
        decreases x.len() - i,
    {
        if x[i] != y[i] {
            let ghost xi = xs.subrange(i as int, xs.len() as int);
            let ghost yi = ys.subrange(i as int, ys.len() as int);
            assert(xi[0] == x[i as int]);
            assert(yi[0] == y[i as int]);
            assert(xi.len() > 0 && yi.len() > 0);
            assert(xs != ys) by {
                assert(xs[i as int] != ys[i as int]);
            }
            return x[i] < y[i];
        }
        proof {
            let xi = xs.subrange(i as int, xs.len() as int);
            let yi = ys.subrange(i as int, ys.len() as int);
            assert(xi.drop_first() =~= xs.subrange(i + 1, xs.len() as int));
            assert(yi.drop_first() =~= ys.subrange(i + 1, ys.len() as int));
        }
        i += 1;
    }
    proof {
        if x.len() == y.len() {
            assert(xs =~= ys);
        } else {
            assert(xs != ys) by {
                assert(xs.len() != ys.len());
            }
        }
        assert(xs.subrange(0, xs.len() as int) =~= xs);
    }
    if x.len() == y.len() {
        ta <= tb
    } else {
        x.len() <= y.len()
    }
}

/// The fingerprint entries of the secrets, sorted by ID and update time.
pub fn secret_print_from_fulls(fulls: &Vec<FullSecret>) -> (r: Vec<SecretFingerprint>)
    ensures
        sorted_by(print_keys(r@), |x: PrintKey, y: PrintKey| key_le(x, y)),
        print_keys(r@).to_multiset() == full_keys(fulls@).to_multiset(),
{
    proof {
        lemma_key_le_total();
    }
    let ghost le = |x: PrintKey, y: PrintKey| key_le(x, y);
    let mut out: Vec<SecretFingerprint> = Vec::new();
    let mut i: usize = 0;
    assert(full_keys(fulls@).subrange(0, 0) =~= seq![]);
    assert(print_keys(out@) =~= seq![]);
    while i < fulls.len()
        invariant
            i <= fulls.len(),
            total_ordering(le),
            le == (|x: PrintKey, y: PrintKey| key_le(x, y)),
            sorted_by(print_keys(out@), le),
            print_keys(out@).to_multiset() == full_keys(fulls@).subrange(0, i as int).to_multiset(),
        decreases fulls.len() - i,
    {
        let f = &fulls[i];
        let item = SecretFingerprint { id: f.id.clone(), updated_at: f.updated_at };
        let ghost k = print_key(item);
        assert(k == full_key(fulls@[i as int]));
        let mut pos: usize = 0;
        while pos < out.len() && id_bytes_le(&out[pos].id, &item.id, out[pos].updated_at, item.updated_at)
            invariant
                pos <= out.len(),
                k == print_key(item),
                total_ordering(le),
                le == (|x: PrintKey, y: PrintKey| key_le(x, y)),
                forall|j: int| 0 <= j < pos ==> key_le(#[trigger] print_keys(out@)[j], k),
            decreases out.len() - pos,
        {
            pos += 1;
        }
        let ghost old_keys = print_keys(out@);
        out.insert(pos, item);
        proof {
            let ks = print_keys(out@);
            assert(ks =~= old_keys.insert(pos as int, k));
            if pos < old_keys.len() {
                assert(!key_le(old_keys[pos as int], k));
                assert(le(old_keys[pos as int], k) || le(k, old_keys[pos as int]));
            }
            assert forall|a: int, b: int| 0 <= a < b < ks.len() implies #[trigger] le(ks[a], ks[b]) by {
                if a < pos && b < pos {
                    assert(le(old_keys[a], old_keys[b]));
                } else if a < pos && b == pos {
                } else if a < pos {
                    assert(le(old_keys[a], k));
                    assert(le(k, old_keys[pos as int]));
                    if pos as int != b - 1 {
                        assert(le(old_keys[pos as int], old_keys[b - 1]));
                    }
                    assert(le(k, old_keys[b - 1]));
                } else if a == pos {
                    assert(le(k, old_keys[pos as int]));
                    if pos as int != b - 1 {
                        assert(le(old_keys[pos as int], old_keys[b - 1]));
                    }
                } else {
                    assert(le(old_keys[a - 1], old_keys[b - 1]));
                }
            }
            vstd::seq_lib::to_multiset_insert(old_keys, pos as int, k);
            assert(full_keys(fulls@).subrange(0, i + 1) =~= full_keys(fulls@).subrange(0, i as int).push(k));
            assert(full_keys(fulls@).subrange(0, i as int).push(k).to_multiset()
                =~= full_keys(fulls@).subrange(0, i as int).to_multiset().insert(k));
        }
        i += 1;
    }
    assert(full_keys(fulls@).subrange(0, fulls.len() as int) =~= full_keys(fulls@));
    out
}

/// A fingerprint entry as its ID and update time.
pub open spec fn print_entries(s: Seq<SecretFingerprint>) -> Seq<(Seq<char>, i64)> {
    s.map_values(|p: SecretFingerprint| (p.id@, p.updated_at))
}

/// MessagePack bytes of a list of `(id, time)` pairs, each written as a
/// two-element array, or none when serialisation fails.
pub uninterp spec fn msgpack_prints(s: Seq<(Seq<char>, i64)>) -> Option<Seq<u8>>;

/// The stored form of a fingerprint list.
pub open spec fn prints_bytes(prints: Seq<SecretFingerprint>) -> Option<Seq<u8>> {
    msgpack_prints(print_entries(prints))
}

/// Relies on rmp_serde::to_vec: the MessagePack encoding of the entries as
/// `(id, time)` pairs, with its error mapped to `None`.
#[verifier::external_body]
fn prints_msgpack(prints: &Vec<SecretFingerprint>) -> (r: Option<Vec<u8>>)
    ensures
        match r {
            Some(b) => msgpack_prints(print_entries(prints@)) == Some(b@),
            None => msgpack_prints(print_entries(prints@)) is None,
        },
{
    let entries: Vec<(&str, i64)> = prints.iter().map(|p| (p.id.as_str(), p.updated_at)).collect();
    rmp_serde::to_vec(&entries).ok()
}

/// Whether a stored secret fingerprint label matches the current secrets:
/// without secrets there must be no label; with secrets the label must
/// decode to the MessagePack bytes of their sorted fingerprint.
pub fn secret_fingerprint_matches(label: &Option<String>, prints: &Vec<SecretFingerprint>) -> (r: bool)
    ensures
        r == match label {
            None => prints.len() == 0,
            Some(l) => prints.len() > 0 && prints_bytes(prints@) is Some && url_safe_decoded(l@)
                == prints_bytes(prints@),
        },
{
    match label {
        None => prints.len() == 0,
        Some(l) => {
            if prints.len() == 0 {
                return false;
            }
            let expected = match prints_msgpack(prints) {
                Some(b) => b,
                None => {
                    return false;
                },
            };
            match base64_decode(l) {
                None => false,
                Some(bytes) => bytes_eq(&bytes, &expected),
            }
        },
    }
}

/// Whether the fingerprint list has a stored form that fits in memory
/// twice over.
pub open spec fn prints_storable(prints: Seq<SecretFingerprint>) -> bool {
    prints_bytes(prints) matches Some(b) && b.len() <= usize::MAX / 2
}

/// The secret fingerprint label of a fingerprint list, when it can be
/// stored.
pub fn secret_label(prints: &Vec<SecretFingerprint>) -> (r: Option<String>)
    ensures
        r is Some <==> prints_storable(prints@),
        match r {
            Some(l) => l@ == url_safe_encoded(prints_bytes(prints@)->Some_0)
                && url_safe_decoded(l@) == prints_bytes(prints@),
            None => true,
        },
{
    let bytes = match prints_msgpack(prints) {
        Some(b) => b,
        None => {
            return None;
        },
    };
    if bytes.len() > usize::MAX / 2 {
        return None;
    }
    Some(base64_encode(&bytes))
}

/// Two sorted fingerprint lists of the same entries, however the secrets
/// were ordered, are stored as the same bytes.
pub proof fn lemma_stored_prints_order_free(a: Seq<SecretFingerprint>, b: Seq<SecretFingerprint>)
    requires
        sorted_by(print_keys(a), |x: PrintKey, y: PrintKey| key_le(x, y)),
        sorted_by(print_keys(b), |x: PrintKey, y: PrintKey| key_le(x, y)),
        print_keys(a).to_multiset() == print_keys(b).to_multiset(),
    ensures
        prints_bytes(a) == prints_bytes(b),
{
    lemma_prints_order_free(print_keys(a), print_keys(b));
    assert forall|i: int| 0 <= i < a.len() implies #[trigger] print_entries(a)[i] == print_entries(b)[i] by {
        assert(print_keys(a)[i] == print_keys(b)[i]);
        vstd::utf8::encode_utf8_decode_utf8(a[i].id@);
        vstd::utf8::encode_utf8_decode_utf8(b[i].id@);
    }
    assert(print_entries(a) =~= print_entries(b));
}

} // verus!
