use vstd::prelude::*;
use base64::Engine;

verus! {

/// The fingerprint of a host file tree: a file's modification time in
/// milliseconds and length, or a directory's children keyed by raw name
/// bytes.
pub enum InjectNode {
    Directory(Vec<(Vec<u8>, InjectNode)>),
    File { mtime: u128, len: u64 },
}

/// Mathematical form of a fingerprint tree.
pub enum NodeModel {
    Directory(Seq<(Seq<u8>, NodeModel)>),
    File { mtime: u128, len: u64 },
}

pub open spec fn model(n: InjectNode) -> NodeModel
    decreases n, 0int,
{
    match n {
        InjectNode::File { mtime, len } => NodeModel::File { mtime, len },
        InjectNode::Directory(ch) => NodeModel::Directory(children_model(ch@, ch@.len() as int)),
    }
}

/// Models of the first `k` children.
pub open spec fn children_model(ch: Seq<(Vec<u8>, InjectNode)>, k: int) -> Seq<(Seq<u8>, NodeModel)>
    decreases ch, k,
{
    if k <= 0 || k > ch.len() {
        seq![]
    } else {
        children_model(ch, k - 1).push((ch[k - 1].0@, model(ch[k - 1].1)))
    }
}

/// `v` as `n` big-endian bytes.
pub open spec fn be(v: nat, n: nat) -> Seq<u8>
    decreases n,
{
    if n == 0 {
        seq![]
    } else {
        be(v / 256, (n - 1) as nat).push((v % 256) as u8)
    }
}

/// The number that big-endian bytes spell.
pub open spec fn from_be(b: Seq<u8>) -> nat
    decreases b.len(),
{
    if b.len() == 0 {
        0
    } else {
        from_be(b.drop_last()) * 256 + b.last() as nat
    }
}

pub open spec fn pow256(n: nat) -> nat
    decreases n,
{
    if n == 0 {
        1
    } else {
        256 * pow256((n - 1) as nat)
    }
}

pub open spec fn file_header() -> Seq<u8> {
    seq![0x81u8, 0xa1u8, 0x66u8, 0x92u8, 0xc4u8, 0x10u8]
}

pub open spec fn dir_header() -> Seq<u8> {
    seq![0x81u8, 0xa1u8, 0x64u8, 0xdfu8]
}

// The tree format is this library's own. The bytes are valid MessagePack,
// but their layout (fixed-width markers, keys as binary strings so that
// file names need not be UTF-8) is fixed here, and the decoder below is
// proved to read back exactly what the encoder writes. A label in any
// other layout does not decode and counts as no fingerprint.

/// The MessagePack form of a tree: `{"f": [bin16 mtime, uint64 len]}` for a
/// file, `{"d": {bin key: node, ...}}` for a directory, with 32-bit counts
/// and lengths.
pub open spec fn enc(m: NodeModel) -> Seq<u8>
    decreases m, 0int,
{
    match m {
        NodeModel::File { mtime, len } => file_header() + be(mtime as nat, 16) + seq![0xcfu8] + be(
            len as nat,
            8,
        ),
        NodeModel::Directory(ch) => dir_header() + be(ch.len(), 4) + enc_list(ch, 0),
    }
}

/// Encoding of the children from index `i` on.
pub open spec fn enc_list(s: Seq<(Seq<u8>, NodeModel)>, i: int) -> Seq<u8>
    decreases s, s.len() - i,
{
    if i < 0 || i >= s.len() {
        seq![]
    } else {
        seq![0xc6u8] + be(s[i].0.len(), 4) + s[i].0 + enc(s[i].1) + enc_list(s, i + 1)
    }
}

/// Whether every count and key length fits the 32-bit fields.
pub open spec fn encodable(m: NodeModel) -> bool
    decreases m, 0int,
{
    match m {
        NodeModel::File { .. } => true,
        NodeModel::Directory(ch) => ch.len() < 0x1_0000_0000 && encodable_list(ch, 0),
    }
}

pub open spec fn encodable_list(s: Seq<(Seq<u8>, NodeModel)>, i: int) -> bool
    decreases s, s.len() - i,
{
    if i < 0 || i >= s.len() {
        true
    } else {
        s[i].0.len() < 0x1_0000_0000 && encodable(s[i].1) && encodable_list(s, i + 1)
    }
}

/// Decodes a tree from the front of `b`, with the number of bytes it used.
pub open spec fn dec(b: Seq<u8>) -> Option<(NodeModel, int)>
    decreases b.len(), 1int,
{
    if b.len() >= 31 && b.subrange(0, 6) == file_header() && b[22] == 0xcfu8 {
        Some((NodeModel::File { mtime: from_be(b.subrange(6, 22)) as u128, len: from_be(b.subrange(23, 31)) as u64 }, 31))
    } else if b.len() >= 8 && b.subrange(0, 4) == dir_header() {
        match dec_list(b.subrange(8, b.len() as int), from_be(b.subrange(4, 8))) {
            Some((ch, used)) => Some((NodeModel::Directory(ch), 8 + used)),
            None => None,
        }
    } else {
        None
    }
}

/// Decodes `count` children from the front of `b`.
pub open spec fn dec_list(b: Seq<u8>, count: nat) -> Option<(Seq<(Seq<u8>, NodeModel)>, int)>
    decreases b.len(), 0int, count,
{
    if count == 0 {
        Some((seq![], 0))
    } else if b.len() >= 5 && b[0] == 0xc6u8 {
        let kl = from_be(b.subrange(1, 5)) as int;
        if 5 + kl <= b.len() {
            let key = b.subrange(5, 5 + kl);
            match dec(b.subrange(5 + kl, b.len() as int)) {
                Some((n, used)) => if 0 <= used && 5 + kl + used <= b.len() {
                    match dec_list(b.subrange(5 + kl + used, b.len() as int), (count - 1) as nat) {
                        Some((rest, u2)) => Some((seq![(key, n)] + rest, 5 + kl + used + u2)),
                        None => None,
                    }
                } else {
                    None
                },
                None => None,
            }
        } else {
            None
        }
    } else {
        None
    }
}

proof fn lemma_be(v: nat, n: nat)
    requires
        v < pow256(n),
    ensures
        be(v, n).len() == n,
        from_be(be(v, n)) == v,
    decreases n,
{
    if n > 0 {
        let q = v / 256;
        assert(q < pow256((n - 1) as nat)) by (nonlinear_arith)
            requires
                v < 256 * pow256((n - 1) as nat),
                q == v / 256,
        ;
        lemma_be(q, (n - 1) as nat);
        assert(be(v, n).drop_last() =~= be(q, (n - 1) as nat));
        assert(q * 256 + v % 256 == v) by (nonlinear_arith)
            requires
                q == v / 256,
        ;
    }
}

proof fn lemma_from_be_bound(b: Seq<u8>)
    ensures
        from_be(b) < pow256(b.len()),
    decreases b.len(),
{
    if b.len() > 0 {
        lemma_from_be_bound(b.drop_last());
        let x = from_be(b.drop_last());
        let p = pow256(b.drop_last().len());
        assert(x * 256 + b.last() < 256 * p) by (nonlinear_arith)
            requires
                x < p,
                b.last() < 256,
        ;
    }
}

proof fn lemma_pow256_mono(a: nat, b: nat)
    requires
        a <= b,
    ensures
        pow256(a) <= pow256(b),
    decreases b,
{
    if a < b {
        lemma_pow256_mono(a, (b - 1) as nat);
    }
}

proof fn lemma_pow256_values()
    ensures
        pow256(4) == 0x1_0000_0000,
        pow256(8) == 0x1_0000_0000_0000_0000,
        pow256(16) == 0x1_0000_0000_0000_0000_0000_0000_0000_0000,
{
    reveal_with_fuel(pow256, 17);
}

/// The children's models, one for each child, in order.
pub proof fn lemma_children_model(ch: Seq<(Vec<u8>, InjectNode)>, k: int)
    requires
        0 <= k <= ch.len(),
    ensures
        children_model(ch, k).len() == k,
        forall|i: int| 0 <= i < k ==> #[trigger] children_model(ch, k)[i] == (ch[i].0@, model(ch[i].1)),
    decreases k,
{
    if k > 0 {
        lemma_children_model(ch, k - 1);
    }
}

proof fn lemma_children_model_push(ch: Seq<(Vec<u8>, InjectNode)>, x: (Vec<u8>, InjectNode), k: int)
    requires
        0 <= k <= ch.len(),
    ensures
        children_model(ch.push(x), k) == children_model(ch, k),
    decreases k,
{
    if k > 0 {
        lemma_children_model_push(ch, x, k - 1);
    }
}

/// Decoding what was encoded, followed by anything, gives back the tree
/// and the length of its encoding.
pub proof fn lemma_round_trip(m: NodeModel, rest: Seq<u8>)
    requires
        encodable(m),
    ensures
        dec(enc(m) + rest) == Some((m, enc(m).len() as int)),
    decreases m, 0int,
{
    match m {
        NodeModel::File { mtime, len } => {
            lemma_round_trip_file(mtime, len, rest);
        },
        NodeModel::Directory(ch) => {
            lemma_pow256_values();
            lemma_be(ch.len(), 4);
            let b = enc(m) + rest;
            assert(b.subrange(0, 4) =~= dir_header());
            assert(b.subrange(4, 8) =~= be(ch.len(), 4));
            assert(b.subrange(8, b.len() as int) =~= enc_list(ch, 0) + rest);
            lemma_round_trip_list(ch, 0, rest);
            assert(ch.subrange(0, ch.len() as int) =~= ch);
            assert(!(b.len() >= 31 && b.subrange(0, 6) == file_header() && b[22] == 0xcfu8)) by {
                assert(b[2] == 0x64u8);
                assert(b.subrange(0, 6)[2] == b[2]);
            }
        },
    }
}

proof fn lemma_round_trip_file(mtime: u128, len: u64, rest: Seq<u8>)
    ensures
        dec(enc(NodeModel::File { mtime, len }) + rest) == Some((NodeModel::File { mtime, len }, 31int)),
        enc(NodeModel::File { mtime, len }).len() == 31,
{
    lemma_pow256_values();
    lemma_be(mtime as nat, 16);
    lemma_be(len as nat, 8);
    let m = NodeModel::File { mtime, len };
    let b = enc(m) + rest;
    assert(b.subrange(0, 6) =~= file_header());
    assert(b.subrange(6, 22) =~= be(mtime as nat, 16));
    assert(b.subrange(23, 31) =~= be(len as nat, 8));
    assert(b[22] == 0xcfu8);
}

#[verifier::rlimit(40)]
pub proof fn lemma_round_trip_list(s: Seq<(Seq<u8>, NodeModel)>, i: int, rest: Seq<u8>)
    requires
        0 <= i <= s.len(),
        encodable_list(s, i),
    ensures
        dec_list(enc_list(s, i) + rest, (s.len() - i) as nat) == Some((s.subrange(i, s.len() as int), enc_list(s, i).len() as int)),
    decreases s, s.len() - i,
{
    lemma_pow256_values();
    if i == s.len() {
        assert(enc_list(s, i) + rest =~= rest);
        assert(s.subrange(i, s.len() as int) =~= seq![]);
    } else {
        let key = s[i].0;
        let node = s[i].1;
        let tail = enc_list(s, i + 1) + rest;
        let b = enc_list(s, i) + rest;
        lemma_be(key.len(), 4);
        assert(b =~= seq![0xc6u8] + be(key.len(), 4) + key + (enc(node) + tail));
        let kl = key.len() as int;
        assert(b.subrange(1, 5) =~= be(key.len(), 4));
        assert(b.subrange(5, 5 + kl) =~= key);
        assert(b.subrange(5 + kl, b.len() as int) =~= enc(node) + tail);
        lemma_round_trip(node, tail);
        let used = enc(node).len() as int;
        assert(b.subrange(5 + kl + used, b.len() as int) =~= tail);
        lemma_round_trip_list(s, i + 1, rest);
        assert(seq![(key, node)] + s.subrange(i + 1, s.len() as int) =~= s.subrange(i, s.len() as int));
    }
}

fn push_be(out: &mut Vec<u8>, v: u128, n: usize)
    ensures
        final(out)@ == old(out)@ + be(v as nat, n as nat),
    decreases n,
{
    if n > 0 {
        push_be(out, v / 256, n - 1);
        out.push((v % 256) as u8);
    }
}

fn read_be(b: &Vec<u8>, pos: usize, n: usize) -> (r: u128)
    requires
        n <= 16,
        pos + n <= b.len(),
    ensures
        r == from_be(b@.subrange(pos as int, pos + n)),
{
    proof {
        lemma_pow256_values();
    }
    let mut acc: u128 = 0;
    let mut i: usize = 0;
    assert(b@.subrange(pos as int, pos as int) =~= seq![]);
    while i < n
        invariant
            n <= 16,
            pos + n <= b.len(),
            i <= n,
            acc == from_be(b@.subrange(pos as int, pos + i)),
            pow256(16) == 0x1_0000_0000_0000_0000_0000_0000_0000_0000,
        decreases n - i,
    {
        let ghost sub = b@.subrange(pos as int, pos + i + 1);
        proof {
            assert(sub.drop_last() =~= b@.subrange(pos as int, pos + i));
            lemma_from_be_bound(sub);
            lemma_pow256_mono(i as nat + 1, 16);
        }
        acc = acc * 256 + b[pos + i] as u128;
        i += 1;
    }
    acc
}

/// Appends the encoding of `n`.
pub fn encode_node(n: &InjectNode, out: &mut Vec<u8>)
    requires
        encodable(model(*n)),
    ensures
        final(out)@ == old(out)@ + enc(model(*n)),
    decreases n,
{
    proof {
        lemma_pow256_values();
    }
    match n {
        InjectNode::File { mtime, len } => {
            out.push(0x81u8);
            out.push(0xa1u8);
            out.push(0x66u8);
            out.push(0x92u8);
            out.push(0xc4u8);
            out.push(0x10u8);
            push_be(out, *mtime, 16);
            out.push(0xcfu8);
            push_be(out, *len as u128, 8);
            assert(final(out)@ =~= old(out)@ + enc(model(*n)));
        },
        InjectNode::Directory(ch) => {
            let ghost ms = children_model(ch@, ch@.len() as int);
            proof {
                lemma_children_model(ch@, ch@.len() as int);
            }
            out.push(0x81u8);
            out.push(0xa1u8);
            out.push(0x64u8);
            out.push(0xdfu8);
            push_be(out, ch.len() as u128, 4);
            let ghost target = old(out)@ + enc(model(*n));
            assert(out@ + enc_list(ms, 0) =~= target);
            let mut i: usize = 0;
            while i < ch.len()
                invariant
                    *n == InjectNode::Directory(*ch),
                    i <= ch.len(),
                    ms == children_model(ch@, ch@.len() as int),
                    ms.len() == ch.len(),
                    forall|j: int| 0 <= j < ch.len() ==> #[trigger] ms[j] == (ch@[j].0@, model(ch@[j].1)),
                    encodable_list(ms, i as int),
                    out@ + enc_list(ms, i as int) == target,
                decreases ch.len() - i,
            {
                let key = &ch[i].0;
                let ghost before = out@;
                out.push(0xc6u8);
                push_be(out, key.len() as u128, 4);
                let mut j: usize = 0;
                while j < key.len()
                    invariant
                        j <= key.len(),
                        out@ == before + seq![0xc6u8] + be(key.len() as nat, 4) + key@.subrange(0, j as int),
                    decreases key.len() - j,
                {
                    out.push(key[j]);
                    assert(key@.subrange(0, j + 1) =~= key@.subrange(0, j as int).push(key[j as int]));
                    j += 1;
                }
                assert(key@.subrange(0, key.len() as int) =~= key@);
                proof {
                    vstd::std_specs::vec::axiom_vec_index_decreases(*ch, i as int);
                    assert(decreases_to!(*n => (*n)->Directory_0));
                    assert((*n)->Directory_0 == *ch);
                    assert(decreases_to!(ch[i as int] => ch[i as int].1));
                    assert(decreases_to!(*n => ch@[i as int].1));
                }
                encode_node(&ch[i].1, out);
                assert(out@ + enc_list(ms, i + 1) =~= before + enc_list(ms, i as int));
                i += 1;
            }
            assert(enc_list(ms, ch.len() as int) =~= seq![]);
            assert(out@ =~= target);
        },
    }
}

fn bytes_at(b: &Vec<u8>, pos: usize, expected: &[u8]) -> (r: bool)
    requires
        pos <= b.len(),
    ensures
        r == (pos + expected@.len() <= b.len() && b@.subrange(pos as int, pos + expected@.len()) == expected@),
{
    if expected.len() > b.len() - pos {
        return false;
    }
    let mut i: usize = 0;
    while i < expected.len()
        invariant
            pos + expected@.len() <= b.len(),
            i <= expected@.len(),
            forall|j: int| 0 <= j < i ==> b@[pos + j] == expected@[j],
        decreases expected.len() - i,
    {
        if b[pos + i] != expected[i] {
            assert(b@.subrange(pos as int, pos + expected@.len())[i as int] != expected@[i as int]);
            return false;
        }
        i += 1;
    }
    assert(b@.subrange(pos as int, pos + expected@.len()) =~= expected@);
    true
}

/// Decodes a tree from `b` at `pos`, with the number of bytes it used.
pub fn parse_node(b: &Vec<u8>, pos: usize) -> (r: Option<(InjectNode, usize)>)
    requires
        pos <= b.len(),
    ensures
        match r {
            Some((n, used)) => dec(b@.subrange(pos as int, b.len() as int)) == Some((model(n), used as int))
                && pos + used <= b.len(),
            None => dec(b@.subrange(pos as int, b.len() as int)) is None,
        },
    decreases b.len() - pos,
{
    let ghost bs = b@.subrange(pos as int, b.len() as int);
    proof {
        lemma_pow256_values();
    }
    let fh: [u8; 6] = [0x81u8, 0xa1u8, 0x66u8, 0x92u8, 0xc4u8, 0x10u8];
    let dh: [u8; 4] = [0x81u8, 0xa1u8, 0x64u8, 0xdfu8];
    assert(fh@ =~= file_header());
    assert(dh@ =~= dir_header());
    if b.len() - pos >= 31 && bytes_at(b, pos, &fh) && b[pos + 22] == 0xcfu8 {
        assert(bs.subrange(0, 6) =~= b@.subrange(pos as int, pos + 6));
        assert(bs.subrange(6, 22) =~= b@.subrange(pos + 6, pos + 22));
        assert(bs.subrange(23, 31) =~= b@.subrange(pos + 23, pos + 31));
        let mtime = read_be(b, pos + 6, 16);
        let len = read_be(b, pos + 23, 8);
        proof {
            lemma_from_be_bound(b@.subrange(pos + 23, pos + 31));
        }
        return Some((InjectNode::File { mtime, len: len as u64 }, 31));
    }
    proof {
        if bs.len() >= 31 && bs.subrange(0, 6) == file_header() && bs[22] == 0xcfu8 {
            assert(bs.subrange(0, 6) =~= b@.subrange(pos as int, pos + 6));
        }
    }
    if b.len() - pos < 8 || !bytes_at(b, pos, &dh) {
        proof {
            if bs.len() >= 8 && bs.subrange(0, 4) == dir_header() {
                assert(bs.subrange(0, 4) =~= b@.subrange(pos as int, pos + 4));
            }
        }
        return None;
    }
    assert(bs.subrange(0, 4) =~= b@.subrange(pos as int, pos + 4));
    assert(bs.subrange(4, 8) =~= b@.subrange(pos + 4, pos + 8));
    let count = read_be(b, pos + 4, 4);
    proof {
        lemma_from_be_bound(b@.subrange(pos + 4, pos + 8));
    }
    let ghost start = (pos + 8) as int;
    let ghost lst = b@.subrange(start, b.len() as int);
    assert(bs.subrange(8, bs.len() as int) =~= lst);
    let mut ch: Vec<(Vec<u8>, InjectNode)> = Vec::new();
    let mut p: usize = pos + 8;
    let mut k: u128 = 0;
    assert(b@.subrange(p as int, b.len() as int) =~= lst);
    assert(children_model(ch@, 0) + seq![] =~= seq![]);
    assert(dec(bs) == match dec_list(lst, count as nat) {
        Some((c, u)) => Some((NodeModel::Directory(c), 8 + u)),
        None => None,
    });
    while k < count
        invariant
            bs == b@.subrange(pos as int, b.len() as int),
            dec(bs) == match dec_list(lst, count as nat) {
                Some((c, u)) => Some((NodeModel::Directory(c), 8 + u)),
                None => None,
            },
            pos < b.len(),
            start == pos + 8,
            start <= p <= b.len(),
            k <= count,
            count < 0x1_0000_0000,
            ch.len() == k,
            lst == b@.subrange(start, b.len() as int),
            dec_list(lst, count as nat) == match dec_list(b@.subrange(p as int, b.len() as int), (count - k) as nat) {
                Some((rest, u2)) => Some((children_model(ch@, k as int) + rest, (p - start) + u2)),
                None => None,
            },
        decreases count - k,
    {
        let ghost cur = b@.subrange(p as int, b.len() as int);
        if b.len() - p < 5 || b[p] != 0xc6u8 {
            assert(dec_list(cur, (count - k) as nat) is None);
            return None;
        }
        assert(cur.subrange(1, 5) =~= b@.subrange(p + 1, p + 5));
        let kl = read_be(b, p + 1, 4);
        proof {
            lemma_from_be_bound(b@.subrange(p + 1, p + 5));
        }
        if kl > (b.len() - p - 5) as u128 {
            assert(dec_list(cur, (count - k) as nat) is None);
            return None;
        }
        let kl = kl as usize;
        let mut key: Vec<u8> = Vec::new();
        let mut j: usize = 0;
        while j < kl
            invariant
                p + 5 + kl <= b.len(),
                j <= kl,
                key@ == b@.subrange(p + 5, p + 5 + j),
            decreases kl - j,
        {
            key.push(b[p + 5 + j]);
            assert(b@.subrange(p + 5, p + 5 + j + 1) =~= b@.subrange(p + 5, p + 5 + j).push(b@[p + 5 + j]));
            j += 1;
        }
        assert(cur.subrange(5, 5 + kl) =~= key@);
        assert(cur.subrange(5 + kl, cur.len() as int) =~= b@.subrange(p + 5 + kl, b.len() as int));
        match parse_node(b, p + 5 + kl) {
            None => {
                assert(dec_list(cur, (count - k) as nat) is None);
                return None;
            },
            Some((node, used)) => {
                assert(cur.subrange(5 + kl + used, cur.len() as int) =~= b@.subrange(p + 5 + kl + used, b.len() as int));
                let ghost before = ch@;
                let ghost item = (key@, model(node));
                ch.push((key, node));
                proof {
                    lemma_children_model_push(before, ch@.last(), k as int);
                    assert(ch@ == before.push(ch@.last()));
                    assert(children_model(ch@, k + 1) == children_model(before, k as int).push(item));
                    let nxt = b@.subrange(p + 5 + kl + used, b.len() as int);
                    match dec_list(nxt, (count - k - 1) as nat) {
                        Some((rest, u2)) => {
                            assert(children_model(before, k as int) + (seq![item] + rest) =~= children_model(ch@, k + 1) + rest);
                        },
                        None => {},
                    }
                }
                p = p + 5 + kl + used;
            },
        }
        k += 1;
    }
    let ghost fin = b@.subrange(p as int, b.len() as int);
    proof {
        lemma_children_model(ch@, ch@.len() as int);
        assert(children_model(ch@, k as int) + seq![] =~= children_model(ch@, k as int));
    }
    Some((InjectNode::Directory(ch), p - pos))
}

/// Text of the URL-safe, unpadded base64 encoding of some bytes.
pub uninterp spec fn url_safe_encoded(b: Seq<u8>) -> Seq<char>;

/// Bytes whose URL-safe, unpadded base64 encoding is the text, if any.
pub uninterp spec fn url_safe_decoded(s: Seq<char>) -> Option<Seq<u8>>;

/// Relies on base64's `URL_SAFE_NO_PAD` engine: `encode` gives text that
/// the same engine decodes back to the input. It panics only when the
/// output length overflows `usize`.
#[verifier::external_body]
pub(crate) fn base64_encode(b: &Vec<u8>) -> (r: String)
    requires
        b@.len() <= usize::MAX / 2,
    ensures
        r@ == url_safe_encoded(b@),
        url_safe_decoded(r@) == Some(b@),
{
    base64::engine::general_purpose::URL_SAFE_NO_PAD.encode(b)
}

/// Relies on base64's `URL_SAFE_NO_PAD` engine: `decode` of a label's text,
/// with its error mapped to `None`.
#[verifier::external_body]
pub(crate) fn base64_decode(s: &String) -> (r: Option<Vec<u8>>)
    ensures
        match r {
            Some(v) => url_safe_decoded(s@) == Some(v@),
            None => url_safe_decoded(s@) is None,
        },
{
    base64::engine::general_purpose::URL_SAFE_NO_PAD.decode(s.as_bytes()).ok()
}

/// The tree a fingerprint label holds: base64 text of exactly one encoded
/// tree.
pub open spec fn label_tree(s: Seq<char>) -> Option<NodeModel> {
    match url_safe_decoded(s) {
        Some(b) => match dec(b) {
            Some((m, used)) => if used == b.len() {
                Some(m)
            } else {
                None
            },
            None => None,
        },
        None => None,
    }
}

/// Whether every count and key length of the tree fits the format.
pub fn check_encodable(n: &InjectNode) -> (r: bool)
    ensures
        r == encodable(model(*n)),
    decreases n,
{
    match n {
        InjectNode::File { .. } => true,
        InjectNode::Directory(ch) => {
            let ghost ms = children_model(ch@, ch@.len() as int);
            proof {
                lemma_children_model(ch@, ch@.len() as int);
            }
            if ch.len() as u64 >= 0x1_0000_0000u64 {
                return false;
            }
            let mut i: usize = ch.len();
            while i > 0
                invariant
                    *n == InjectNode::Directory(*ch),
                    i <= ch.len(),
                    ms == children_model(ch@, ch@.len() as int),
                    ms.len() == ch.len(),
                    forall|j: int| 0 <= j < ch.len() ==> #[trigger] ms[j] == (ch@[j].0@, model(ch@[j].1)),
                    encodable_list(ms, i as int) == encodable_list(ms, ch.len() as int),
                decreases i,
            {
                let k = i - 1;
                proof {
                    vstd::std_specs::vec::axiom_vec_index_decreases(*ch, k as int);
                    assert(decreases_to!(*n => (*n)->Directory_0));
                    assert((*n)->Directory_0 == *ch);
                    assert(decreases_to!(ch[k as int] => ch[k as int].1));
                }
                if ch[k].0.len() as u64 >= 0x1_0000_0000u64 || !check_encodable(&ch[k].1) {
                    proof {
                        if encodable_list(ms, 0) {
                            lemma_encodable_suffix(ms, 0, k as int);
                        }
                    }
                    return false;
                }
                i = k;
            }
            true
        },
    }
}

proof fn lemma_encodable_suffix(s: Seq<(Seq<u8>, NodeModel)>, i: int, j: int)
    requires
        0 <= i <= j,
        encodable_list(s, i),
    ensures
        encodable_list(s, j),
    decreases j - i,
{
    if i < j && i < s.len() {
        lemma_encodable_suffix(s, i + 1, j);
    }
}

/// The label text of a fingerprint tree, when the tree fits the format;
/// decoding the label gives the tree back.
pub fn encode_inject_label(tree: &InjectNode) -> (r: Option<String>)
    ensures
        r is Some <==> encodable(model(*tree)) && enc(model(*tree)).len() <= usize::MAX / 2,
        match r {
            Some(s) => s@ == url_safe_encoded(enc(model(*tree))) && label_tree(s@) == Some(model(*tree)),
            None => true,
        },
{
    if !check_encodable(tree) {
        return None;
    }
    let mut bytes: Vec<u8> = Vec::new();
    encode_node(tree, &mut bytes);
    assert(bytes@ =~= enc(model(*tree)));
    if bytes.len() > usize::MAX / 2 {
        return None;
    }
    proof {
        lemma_round_trip(model(*tree), seq![]);
        assert(enc(model(*tree)) + seq![] =~= enc(model(*tree)));
    }
    Some(base64_encode(&bytes))
}

/// The tree a fingerprint label holds, or `None` when the label is not one;
/// an unreadable label counts as no fingerprint at all.
pub fn decode_inject_label(label: &String) -> (r: Option<InjectNode>)
    ensures
        match r {
            Some(t) => label_tree(label@) == Some(model(t)),
            None => label_tree(label@) is None,
        },
{
    let bytes = match base64_decode(label) {
        Some(b) => b,
        None => {
            return None;
        },
    };
    assert(bytes@.subrange(0, bytes.len() as int) =~= bytes@);
    match parse_node(&bytes, 0) {
        Some((t, used)) => {
            if used == bytes.len() {
                Some(t)
            } else {
                None
            }
        },
        None => None,
    }
}

/// The child stored under `key`: the first one with that key.
pub open spec fn lookup(s: Seq<(Seq<u8>, NodeModel)>, key: Seq<u8>) -> Option<NodeModel> {
    if exists|i: int| 0 <= i < s.len() && s[i].0 == key && forall|j: int| 0 <= j < i ==> s[j].0 != key {
        let i = choose|i: int| 0 <= i < s.len() && s[i].0 == key && forall|j: int| 0 <= j < i ==> s[j].0 != key;
        Some(s[i].1)
    } else {
        None
    }
}

/// Whether a freshly computed tree matches a stored one node by node: files
/// agree on modification time and length, directories have as many
/// children and each fresh child matches the stored child of its name.
pub open spec fn same(f: NodeModel, s: NodeModel) -> bool
    decreases f, 0int,
{
    match f {
        NodeModel::File { mtime, len } => match s {
            NodeModel::File { mtime: m2, len: l2 } => mtime == m2 && len == l2,
            _ => false,
        },
        NodeModel::Directory(a) => match s {
            NodeModel::Directory(b) => a.len() == b.len() && same_list(a, b, 0),
            _ => false,
        },
    }
}

pub open spec fn same_list(a: Seq<(Seq<u8>, NodeModel)>, b: Seq<(Seq<u8>, NodeModel)>, i: int) -> bool
    decreases a, a.len() - i,
{
    if i < 0 || i >= a.len() {
        true
    } else {
        &&& match lookup(b, a[i].0) {
            Some(n) => same(a[i].1, n),
            None => false,
        }
        &&& same_list(a, b, i + 1)
    }
}

pub(crate) fn bytes_eq(a: &Vec<u8>, b: &Vec<u8>) -> (r: bool)
    ensures
        r == (a@ == b@),
{
    if a.len() != b.len() {
        return false;
    }
    let mut i: usize = 0;
    while i < a.len()
        invariant
            a.len() == b.len(),
            i <= a.len(),
            forall|j: int| 0 <= j < i ==> a@[j] == b@[j],
        decreases a.len() - i,
    {
        if a[i] != b[i] {
            return false;
        }
        i += 1;
    }
    assert(a@ =~= b@);
    true
}

fn find_child(ch: &Vec<(Vec<u8>, InjectNode)>, key: &Vec<u8>) -> (r: Option<usize>)
    ensures
        match r {
            Some(i) => i < ch.len() && lookup(children_model(ch@, ch@.len() as int), key@) == Some(
                model(ch@[i as int].1),
            ),
            None => lookup(children_model(ch@, ch@.len() as int), key@) is None,
        },
{
    let ghost ms = children_model(ch@, ch@.len() as int);
    proof {
        lemma_children_model(ch@, ch@.len() as int);
    }
    let mut i: usize = 0;
    while i < ch.len()
        invariant
            i <= ch.len(),
            ms == children_model(ch@, ch@.len() as int),
            ms.len() == ch.len(),
            forall|j: int| 0 <= j < ch.len() ==> #[trigger] ms[j] == (ch@[j].0@, model(ch@[j].1)),
            forall|j: int| 0 <= j < i ==> ms[j].0 != key@,
        decreases ch.len() - i,
    {
        if bytes_eq(&ch[i].0, key) {
            assert(ms[i as int].0 == key@);
            return Some(i);
        }
        i += 1;
    }
    None
}

/// Whether names are distinct within every directory of the tree, as they
/// are in a tree read from a file system.
pub open spec fn keys_distinct(m: NodeModel) -> bool
    decreases m, 0int,
{
    match m {
        NodeModel::File { .. } => true,
        NodeModel::Directory(ch) => ch.map_values(|p: (Seq<u8>, NodeModel)| p.0).no_duplicates()
            && keys_distinct_list(ch, 0),
    }
}

pub open spec fn keys_distinct_list(s: Seq<(Seq<u8>, NodeModel)>, i: int) -> bool
    decreases s, s.len() - i,
{
    if i < 0 || i >= s.len() {
        true
    } else {
        keys_distinct(s[i].1) && keys_distinct_list(s, i + 1)
    }
}

/// A tree with distinct names matches itself.
pub proof fn lemma_same_reflexive(m: NodeModel)
    requires
        keys_distinct(m),
    ensures
        same(m, m),
    decreases m, 0int,
{
    match m {
        NodeModel::File { .. } => {},
        NodeModel::Directory(ch) => {
            lemma_same_reflexive_list(ch, 0);
        },
    }
}

proof fn lemma_same_reflexive_list(s: Seq<(Seq<u8>, NodeModel)>, i: int)
    requires
        0 <= i <= s.len(),
        s.map_values(|p: (Seq<u8>, NodeModel)| p.0).no_duplicates(),
        keys_distinct_list(s, i),
    ensures
        same_list(s, s, i),
    decreases s, s.len() - i,
{
    if i < s.len() {
        let keys = s.map_values(|p: (Seq<u8>, NodeModel)| p.0);
        assert(forall|j: int| 0 <= j < i ==> s[j].0 != s[i].0) by {
            assert forall|j: int| 0 <= j < i implies s[j].0 != s[i].0 by {
                assert(keys[j] == s[j].0);
                assert(keys[i] == s[i].0);
            }
        }
        let c = choose|c: int| 0 <= c < s.len() && s[c].0 == s[i].0 && forall|j: int| 0 <= j < c ==> s[j].0 != s[i].0;
        if c != i {
            assert(keys[c] == s[c].0);
            assert(keys[i] == s[i].0);
        }
        assert(lookup(s, s[i].0) == Some(s[i].1));
        lemma_same_reflexive(s[i].1);
        lemma_same_reflexive_list(s, i + 1);
    }
}

proof fn lemma_same_list_suffix(a: Seq<(Seq<u8>, NodeModel)>, b: Seq<(Seq<u8>, NodeModel)>, i: int, j: int)
    requires
        0 <= i <= j,
        same_list(a, b, i),
    ensures
        same_list(a, b, j),
    decreases j - i,
{
    if i < j && i < a.len() {
        lemma_same_list_suffix(a, b, i + 1, j);
    }
}

/// Whether `fresh` matches `stored` node by node.
pub fn nodes_same(fresh: &InjectNode, stored: &InjectNode) -> (r: bool)
    ensures
        r == same(model(*fresh), model(*stored)),
    decreases fresh,
{
    match fresh {
        InjectNode::File { mtime, len } => match stored {
            InjectNode::File { mtime: m2, len: l2 } => *mtime == *m2 && *len == *l2,
            _ => false,
        },
        InjectNode::Directory(a) => match stored {
            InjectNode::Directory(b) => {
                let ghost ma = children_model(a@, a@.len() as int);
                let ghost mb = children_model(b@, b@.len() as int);
                proof {
                    lemma_children_model(a@, a@.len() as int);
                    lemma_children_model(b@, b@.len() as int);
                }
                if a.len() != b.len() {
                    return false;
                }
                let mut i: usize = a.len();
                while i > 0
                    invariant
                        *fresh == InjectNode::Directory(*a),
                        *stored == InjectNode::Directory(*b),
                        a.len() == b.len(),
                        i <= a.len(),
                        ma == children_model(a@, a@.len() as int),
                        mb == children_model(b@, b@.len() as int),
                        ma.len() == a.len(),
                        forall|j: int| 0 <= j < a.len() ==> #[trigger] ma[j] == (a@[j].0@, model(a@[j].1)),
                        same_list(ma, mb, i as int) == same_list(ma, mb, a.len() as int),
                    decreases i,
                {
                    let k = i - 1;
                    let ok = match find_child(b, &a[k].0) {
                        Some(j) => {
                            proof {
                                vstd::std_specs::vec::axiom_vec_index_decreases(*a, k as int);
                                assert(decreases_to!(*fresh => (*fresh)->Directory_0));
                                assert((*fresh)->Directory_0 == *a);
                                assert(decreases_to!(a[k as int] => a[k as int].1));
                            }
                            nodes_same(&a[k].1, &b[j].1)
                        },
                        None => false,
                    };
                    if !ok {
                        proof {
                            assert(!same_list(ma, mb, k as int));
                            if same_list(ma, mb, 0) {
                                lemma_same_list_suffix(ma, mb, 0, k as int);
                            }
                        }
                        return false;
                    }
                    i = k;
                }
                true
            },
            _ => false,
        },
    }
}

} // verus!
