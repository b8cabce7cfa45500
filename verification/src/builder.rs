//! The cache builder: turns a set of source documents into the manifest,
//! index, and payload files of a cache, deterministically.
//!
//! Documents are ordered by id before anything else happens, payload file
//! names are derived from the id alone (its bytes hex-encoded), the index is
//! a pure function of ids and contents, and the build timestamp only ever
//! appears in the manifest's final `created_at` field. Two builds of the
//! same sources therefore agree byte for byte everywhere except that one
//! field, wherever the target directories were.

use vstd::prelude::*;
use crate::text::tokens;
use crate::text::tokenize;
use crate::text::bytes_view;
use crate::resolve::lex_le;
use crate::jsonw::quoted;
use crate::jsonw::push_quoted;
use crate::jsonw::push_slice;
use crate::numfmt::dec_digits;
use crate::numfmt::push_u64_dec;
use crate::model::bytes_eq;

verus! {

/// One source document handed to the builder.
pub struct SourceDoc {
    pub id: Vec<u8>,
    pub content: Vec<u8>,
}

pub struct SourceV {
    pub id: Seq<u8>,
    pub content: Seq<u8>,
}

impl View for SourceDoc {
    type V = SourceV;

    open spec fn view(&self) -> SourceV {
        SourceV { id: self.id@, content: self.content@ }
    }
}

/// Everything a build writes: the manifest and index bytes, and one payload
/// file per document. Writing payloads and index before the manifest is the
/// caller's duty, so a manifest on disk always names complete files.
pub struct BuildPlan {
    pub manifest: Vec<u8>,
    pub index: Vec<u8>,
    pub payloads: Vec<(Vec<u8>, Vec<u8>)>,
}

/// Strictly-before in id order.
pub open spec fn lex_lt(a: Seq<u8>, b: Seq<u8>) -> bool {
    a != b && lex_le(a, b)
}

/// The FNV-1a 64-bit step.
pub open spec fn fnv_step(h: u64, b: u8) -> u64 {
    ((((h ^ (b as u64)) as u128) * 0x100000001b3) % 0x10000000000000000) as u64
}

/// The FNV-1a 64-bit hash of the first `n` bytes.
pub open spec fn fnv_from(s: Seq<u8>, n: int) -> u64
    decreases n,
{
    if n <= 0 {
        0xcbf29ce484222325
    } else {
        fnv_step(fnv_from(s, n - 1), s[n - 1])
    }
}

/// The FNV-1a 64-bit hash of a byte string.
pub open spec fn fnv64(s: Seq<u8>) -> u64 {
    fnv_from(s, s.len() as int)
}

/// Lower-case hex, two digits per byte.
pub open spec fn hex_bytes(s: Seq<u8>, n: int) -> Seq<u8>
    decreases n,
{
    if n <= 0 {
        Seq::empty()
    } else {
        hex_bytes(s, n - 1) + seq![hex_digit_of((s[n - 1] / 16) as u8), hex_digit_of(
            (s[n - 1] % 16) as u8,
        )]
    }
}

pub open spec fn hex_digit_of(n: u8) -> u8 {
    if n < 10 {
        (48 + n) as u8
    } else {
        (87 + n) as u8
    }
}

/// The hex digits of a 64-bit value, sixteen of them, most significant
/// first.
pub open spec fn hex_u64(h: u64, digits: int) -> Seq<u8>
    decreases digits,
{
    if digits <= 0 {
        Seq::empty()
    } else {
        hex_u64(h / 16, digits - 1) + seq![hex_digit_of((h % 16) as u8)]
    }
}

/// The payload file name for a document id: the id's bytes hex-encoded with
/// a fixed extension, so names are unique and carry nothing but the id.
pub open spec fn payload_name(id: Seq<u8>) -> Seq<u8> {
    hex_bytes(id, id.len() as int) + seq![46u8, 98u8, 105u8, 110u8]
}

/// Computes the FNV-1a 64-bit hash.
pub fn fnv64_exec(s: &[u8]) -> (r: u64)
    ensures
        r == fnv64(s@),
{
    let mut h: u64 = 0xcbf29ce484222325;
    let mut i: usize = 0;
    while i < s.len()
        invariant
            i <= s@.len(),
            h == fnv_from(s@, i as int),
        decreases s@.len() - i,
    {
        let x: u128 = (h ^ (s[i] as u64)) as u128;
        h = ((x * 0x100000001b3) % 0x10000000000000000) as u64;
        i = i + 1;
    }
    h
}

fn hex_digit_exec(n: u8) -> (r: u8)
    requires
        n < 16,
    ensures
        r == hex_digit_of(n),
{
    if n < 10 {
        48 + n
    } else {
        87 + n
    }
}

/// Appends the hex encoding of a byte string.
pub fn push_hex_bytes(s: &[u8], out: &mut Vec<u8>)
    ensures
        final(out)@ == old(out)@ + hex_bytes(s@, s@.len() as int),
{
    let mut i: usize = 0;
    while i < s.len()
        invariant
            i <= s@.len(),
            out@ == old(out)@ + hex_bytes(s@, i as int),
        decreases s@.len() - i,
    {
        out.push(hex_digit_exec(s[i] / 16));
        out.push(hex_digit_exec(s[i] % 16));
        i = i + 1;
        assert(out@ =~= old(out)@ + hex_bytes(s@, i as int));
    }
}

/// Appends the sixteen hex digits of a 64-bit value.
pub fn push_hex_u64(h: u64, out: &mut Vec<u8>)
    ensures
        final(out)@ == old(out)@ + hex_u64(h, 16),
{
    push_hex_rec(h, 16, out);
}

fn push_hex_rec(h: u64, digits: u32, out: &mut Vec<u8>)
    requires
        digits <= 16,
    ensures
        final(out)@ == old(out)@ + hex_u64(h, digits as int),
    decreases digits,
{
    if digits == 0 {
        assert(final(out)@ =~= old(out)@ + hex_u64(h, 0));
    } else {
        push_hex_rec(h / 16, digits - 1, out);
        out.push(hex_digit_exec((h % 16) as u8));
        assert(final(out)@ =~= old(out)@ + hex_u64(h, digits as int));
    }
}

/// The payload name of an id.
pub fn payload_name_exec(id: &[u8]) -> (r: Vec<u8>)
    ensures
        r@ == payload_name(id@),
{
    let mut out: Vec<u8> = Vec::new();
    push_hex_bytes(id, &mut out);
    out.push(46);
    out.push(98);
    out.push(105);
    out.push(110);
    proof {
        assert(out@ =~= payload_name(id@));
    }
    out
}

/// Adds one token to a term table kept sorted by term.
pub open spec fn add_term(table: Seq<(Seq<u8>, u64)>, t: Seq<u8>) -> Seq<(Seq<u8>, u64)>
    decreases table.len(),
{
    if table.len() == 0 {
        seq![(t, 1u64)]
    } else if table.first().0 == t {
        seq![
            (t, (if table.first().1 == u64::MAX {
                u64::MAX
            } else {
                (table.first().1 + 1) as u64
            })),
        ] + table.drop_first()
    } else if lex_lt(t, table.first().0) {
        seq![(t, 1u64)] + table
    } else {
        seq![table.first()] + add_term(table.drop_first(), t)
    }
}

/// The term table of a token run: counts per distinct token, sorted by
/// token.
pub open spec fn term_table(toks: Seq<Seq<u8>>) -> Seq<(Seq<u8>, u64)>
    decreases toks.len(),
{
    if toks.len() == 0 {
        Seq::empty()
    } else {
        add_term(term_table(toks.drop_last()), toks.last())
    }
}

/// Where the scan stopped is where the addition happens.
proof fn lemma_add_term_shape(table: Seq<(Seq<u8>, u64)>, t: Seq<u8>, p: int)
    requires
        0 <= p <= table.len(),
        forall|k: int| 0 <= k < p ==> (#[trigger] table[k].0) != t && !lex_lt(t, table[k].0),
    ensures
        p < table.len() && table[p].0 == t ==> add_term(table, t) == table.update(
            p,
            (t, (if table[p].1 == u64::MAX {
                u64::MAX
            } else {
                (table[p].1 + 1) as u64
            })),
        ),
        p < table.len() && table[p].0 != t && lex_lt(t, table[p].0) ==> add_term(table, t)
            == table.insert(p, (t, 1u64)),
        p == table.len() ==> add_term(table, t) == table.push((t, 1u64)),
    decreases table.len(),
{
    if table.len() == 0 {
        assert(add_term(table, t) =~= table.push((t, 1u64)));
    } else if p == 0 {
        if table[0].0 == t {
            assert(add_term(table, t) =~= table.update(
                0,
                (t, (if table[0].1 == u64::MAX {
                    u64::MAX
                } else {
                    (table[0].1 + 1) as u64
                })),
            ));
        } else if lex_lt(t, table[0].0) {
            assert(add_term(table, t) =~= table.insert(0, (t, 1u64)));
        }
    } else {
        lemma_add_term_shape(table.drop_first(), t, p - 1);
        let sub = table.drop_first();
        assert(forall|k: int| 0 <= k < p - 1 ==> (#[trigger] sub[k].0) == table[k + 1].0);
        if p < table.len() && table[p].0 == t {
            assert(sub[p - 1] == table[p as int]);
            assert(seq![table.first()] + sub.update(
                p - 1,
                (t, (if table[p].1 == u64::MAX {
                    u64::MAX
                } else {
                    (table[p].1 + 1) as u64
                })),
            ) =~= table.update(
                p,
                (t, (if table[p].1 == u64::MAX {
                    u64::MAX
                } else {
                    (table[p].1 + 1) as u64
                })),
            ));
        } else if p < table.len() && lex_lt(t, table[p].0) {
            assert(sub[p - 1] == table[p as int]);
            assert(seq![table.first()] + sub.insert(p - 1, (t, 1u64)) =~= table.insert(
                p,
                (t, 1u64),
            ));
        } else if p == table.len() {
            assert(seq![table.first()] + sub.push((t, 1u64)) =~= table.push((t, 1u64)));
        }
    }
}

/// Builds the term table of a token run.
#[verifier::loop_isolation(false)]
pub fn term_table_exec(toks: &Vec<Vec<u8>>) -> (r: Vec<(Vec<u8>, u64)>)
    ensures
        Seq::new(r@.len(), |k: int| (r@[k].0@, r@[k].1)) == term_table(bytes_view(toks@)),
{
    let ghost tv = bytes_view(toks@);
    let mut table: Vec<(Vec<u8>, u64)> = Vec::new();
    let n = toks.len();
    let mut i: usize = 0;
    proof {
        assert(tv.take(0) =~= Seq::<Seq<u8>>::empty());
        assert(Seq::new(table@.len(), |k: int| (table@[k].0@, table@[k].1)) =~= term_table(
            tv.take(0),
        ));
    }
    while i < n
        invariant
            i <= n,
            n == toks@.len(),
            Seq::new(table@.len(), |k: int| (table@[k].0@, table@[k].1)) == term_table(
                tv.take(i as int),
            ),
        decreases n - i,
    {
        let ghost pre = Seq::new(table@.len(), |k: int| (table@[k].0@, table@[k].1));
        let t = &toks[i];
        let p = scan_term(&table, t.as_slice());
        proof {
            lemma_add_term_shape(pre, t@, p as int);
        }
        if p < table.len() {
            if bytes_eq(table[p].0.as_slice(), t.as_slice()) {
                let c = table[p].1;
                let c2 = if c == u64::MAX {
                    u64::MAX
                } else {
                    c + 1
                };
                let tclone = t.clone();
                table.set(p, (tclone, c2));
                proof {
                    assert(Seq::new(table@.len(), |k: int| (table@[k].0@, table@[k].1))
                        =~= add_term(pre, t@));
                }
            } else {
                table.insert(p, (t.clone(), 1));
                proof {
                    assert(Seq::new(table@.len(), |k: int| (table@[k].0@, table@[k].1))
                        =~= add_term(pre, t@));
                }
            }
        } else {
            table.push((t.clone(), 1));
            proof {
                assert(Seq::new(table@.len(), |k: int| (table@[k].0@, table@[k].1)) =~= add_term(
                    pre,
                    t@,
                ));
            }
        }
        i = i + 1;
        proof {
            assert(tv.take(i as int).drop_last() =~= tv.take(i - 1));
            assert(tv.take(i as int).last() == tv[i - 1]);
            assert(tv[i - 1] == toks@[i - 1]@);
        }
    }
    proof {
        assert(tv.take(n as int) =~= tv);
    }
    table
}

/// Finds the position where a token belongs in the sorted table.
fn scan_term(table: &Vec<(Vec<u8>, u64)>, t: &[u8]) -> (p: usize)
    ensures
        p <= table@.len(),
        forall|k: int| 0 <= k < p ==> (#[trigger] table@[k].0@) != t@ && !lex_lt(t@, table@[k].0@),
        p < table@.len() ==> (table@[p as int].0@ == t@ || lex_lt(t@, table@[p as int].0@)),
{
    let mut p: usize = 0;
    while p < table.len()
        invariant
            p <= table@.len(),
            forall|k: int| 0 <= k < p ==> (#[trigger] table@[k].0@) != t@ && !lex_lt(
                t@,
                table@[k].0@,
            ),
        decreases table@.len() - p,
    {
        if bytes_eq(table[p].0.as_slice(), t) {
            return p;
        }
        if lex_lt_exec(t, table[p].0.as_slice()) {
            return p;
        }
        p = p + 1;
    }
    p
}

/// Strictly-before in id order.
fn lex_lt_exec(a: &[u8], b: &[u8]) -> (r: bool)
    ensures
        r == lex_lt(a@, b@),
{
    if bytes_eq(a, b) {
        false
    } else {
        crate::resolve::lex_le_exec(a, b)
    }
}

/// Inserts a source before the first one whose id does not come earlier.
pub open spec fn insert_src(v: SourceV, s: Seq<SourceV>) -> Seq<SourceV>
    decreases s.len(),
{
    if s.len() == 0 {
        seq![v]
    } else if lex_le(v.id, s.first().id) {
        seq![v] + s
    } else {
        seq![s.first()] + insert_src(v, s.drop_first())
    }
}

/// Sorts sources into ascending id order, independent of how the directory
/// was enumerated.
pub open spec fn sort_srcs(s: Seq<SourceV>) -> Seq<SourceV>
    decreases s.len(),
{
    if s.len() == 0 {
        Seq::empty()
    } else {
        insert_src(s.first(), sort_srcs(s.drop_first()))
    }
}

proof fn lemma_insert_src_shape(v: SourceV, s: Seq<SourceV>, p: int)
    requires
        0 <= p <= s.len(),
        forall|k: int| 0 <= k < p ==> !lex_le(v.id, (#[trigger] s[k]).id),
        p < s.len() ==> lex_le(v.id, s[p].id),
    ensures
        insert_src(v, s) == s.insert(p, v),
    decreases s.len(),
{
    if s.len() == 0 {
        assert(insert_src(v, s) =~= s.insert(0, v));
    } else if lex_le(v.id, s.first().id) {
        assert(p == 0) by {
            if p > 0 {
                assert(!lex_le(v.id, s[0].id));
            }
        }
        assert(insert_src(v, s) =~= s.insert(0, v));
    } else {
        assert(p > 0) by {
            if p == 0 {
                assert(lex_le(v.id, s[0].id));
            }
        }
        lemma_insert_src_shape(v, s.drop_first(), p - 1);
        assert(seq![s.first()] + s.drop_first().insert(p - 1, v) =~= s.insert(p, v));
    }
}

fn clone_src(d: &SourceDoc) -> (r: SourceDoc)
    ensures
        r@ == d@,
{
    SourceDoc { id: d.id.clone(), content: d.content.clone() }
}

/// Sorts source documents by id.
#[verifier::loop_isolation(false)]
pub fn sort_srcs_exec(docs: Vec<SourceDoc>) -> (r: Vec<SourceDoc>)
    ensures
        Seq::new(r@.len(), |k: int| r@[k]@) == sort_srcs(Seq::new(docs@.len(), |k: int| docs@[k]@)),
{
    let ghost full = Seq::new(docs@.len(), |k: int| docs@[k]@);
    let mut out: Vec<SourceDoc> = Vec::new();
    let n = docs.len();
    let mut i: usize = n;
    proof {
        assert(Seq::new((full.len() - n) as nat, |k: int| full[n + k]) =~= Seq::<SourceV>::empty());
        assert(Seq::new(out@.len(), |k: int| out@[k]@) =~= Seq::<SourceV>::empty());
    }
    while i > 0
        invariant
            i <= n,
            n == docs@.len(),
            Seq::new(out@.len(), |k: int| out@[k]@) == sort_srcs(
                Seq::new((full.len() - i) as nat, |k: int| full[i + k]),
            ),
        decreases i,
    {
        i = i - 1;
        let ghost pre = Seq::new(out@.len(), |k: int| out@[k]@);
        let ghost tail = Seq::new((full.len() - i - 1) as nat, |k: int| full[i + 1 + k]);
        let ghost cur = Seq::new((full.len() - i) as nat, |k: int| full[i + k]);
        proof {
            assert(cur.first() == full[i as int]);
            assert(cur.drop_first() =~= tail);
        }
        let v = clone_src(&docs[i]);
        let mut p: usize = 0;
        while p < out.len() && !crate::resolve::lex_le_exec(v.id.as_slice(), out[p].id.as_slice())
            invariant
                p <= out@.len(),
                v@ == full[i as int],
                forall|k: int| 0 <= k < p ==> !lex_le(v@.id, (#[trigger] pre[k]).id),
                pre == Seq::new(out@.len(), |k: int| out@[k]@),
            decreases out@.len() - p,
        {
            p = p + 1;
        }
        out.insert(p, v);
        proof {
            assert(Seq::new(out@.len(), |k: int| out@[k]@) =~= pre.insert(p as int, full[i as int]));
            lemma_insert_src_shape(full[i as int], pre, p as int);
        }
    }
    proof {
        assert(Seq::new((full.len() - 0) as nat, |k: int| full[0 + k]) =~= full);
    }
    out
}

/// Whether two neighbouring sorted sources share an id.
pub open spec fn has_dup_ids(s: Seq<SourceV>) -> bool {
    exists|k: int| 0 <= k < s.len() - 1 && (#[trigger] s[k]).id == s[k + 1].id
}

pub open spec fn mfrag1() -> Seq<u8> {
    seq![123u8, 34u8, 99u8, 97u8, 99u8, 104u8, 101u8, 95u8, 118u8, 101u8, 114u8, 115u8, 105u8,
        111u8, 110u8, 34u8, 58u8, 34u8, 49u8, 34u8, 44u8, 34u8, 98u8, 117u8, 105u8, 108u8, 100u8,
        95u8, 99u8, 111u8, 110u8, 102u8, 105u8, 103u8, 34u8, 58u8, 123u8, 34u8, 118u8, 101u8,
        114u8, 115u8, 105u8, 111u8, 110u8, 34u8, 58u8, 49u8, 125u8, 44u8, 34u8, 100u8, 111u8,
        99u8, 117u8, 109u8, 101u8, 110u8, 116u8, 95u8, 99u8, 111u8, 117u8, 110u8, 116u8, 34u8,
        58u8]
}

pub open spec fn mfrag2() -> Seq<u8> {
    seq![44u8, 34u8, 100u8, 111u8, 99u8, 117u8, 109u8, 101u8, 110u8, 116u8, 115u8, 34u8, 58u8,
        91u8]
}

pub open spec fn mfrag3() -> Seq<u8> {
    seq![93u8, 44u8, 34u8, 99u8, 114u8, 101u8, 97u8, 116u8, 101u8, 100u8, 95u8, 97u8, 116u8, 34u8,
        58u8]
}

pub open spec fn efrag_id() -> Seq<u8> {
    seq![123u8, 34u8, 105u8, 100u8, 34u8, 58u8]
}

pub open spec fn efrag_file() -> Seq<u8> {
    seq![44u8, 34u8, 102u8, 105u8, 108u8, 101u8, 34u8, 58u8]
}

pub open spec fn efrag_fp() -> Seq<u8> {
    seq![44u8, 34u8, 102u8, 105u8, 110u8, 103u8, 101u8, 114u8, 112u8, 114u8, 105u8, 110u8, 116u8,
        34u8, 58u8]
}

pub open spec fn ifrag1() -> Seq<u8> {
    seq![123u8, 34u8, 100u8, 111u8, 99u8, 117u8, 109u8, 101u8, 110u8, 116u8, 115u8, 34u8, 58u8,
        91u8]
}

pub open spec fn ifrag_wc() -> Seq<u8> {
    seq![44u8, 34u8, 119u8, 111u8, 114u8, 100u8, 95u8, 99u8, 111u8, 117u8, 110u8, 116u8, 34u8,
        58u8]
}

pub open spec fn ifrag_size() -> Seq<u8> {
    seq![44u8, 34u8, 115u8, 105u8, 122u8, 101u8, 34u8, 58u8]
}

pub open spec fn ifrag_terms() -> Seq<u8> {
    seq![44u8, 34u8, 116u8, 101u8, 114u8, 109u8, 115u8, 34u8, 58u8, 123u8]
}

/// One manifest entry's JSON.
pub open spec fn entry_json(d: SourceV) -> Seq<u8> {
    efrag_id() + quoted(d.id) + efrag_file() + quoted(payload_name(d.id)) + efrag_fp() + quoted(
        hex_u64(fnv64(d.content), 16),
    ) + seq![125u8]
}

/// The manifest's documents array body.
pub open spec fn entries_json(s: Seq<SourceV>) -> Seq<u8>
    decreases s.len(),
{
    if s.len() == 0 {
        Seq::empty()
    } else if s.len() == 1 {
        entry_json(s[0])
    } else {
        entries_json(s.drop_last()) + seq![44u8] + entry_json(s.last())
    }
}

/// The stable part of the manifest: everything before `created_at`'s value.
pub open spec fn manifest_stable(s: Seq<SourceV>) -> Seq<u8> {
    mfrag1() + dec_digits(s.len()) + mfrag2() + entries_json(s) + mfrag3()
}

/// The manifest bytes: the stable part, then the supplied timestamp.
pub open spec fn manifest_json(s: Seq<SourceV>, created: Seq<u8>) -> Seq<u8> {
    manifest_stable(s) + quoted(created) + seq![125u8]
}

/// One term-table member.
pub open spec fn term_json(t: (Seq<u8>, u64)) -> Seq<u8> {
    quoted(t.0) + seq![58u8] + dec_digits(t.1 as nat)
}

/// The term-table object body.
pub open spec fn terms_json(s: Seq<(Seq<u8>, u64)>) -> Seq<u8>
    decreases s.len(),
{
    if s.len() == 0 {
        Seq::empty()
    } else if s.len() == 1 {
        term_json(s[0])
    } else {
        terms_json(s.drop_last()) + seq![44u8] + term_json(s.last())
    }
}

/// One index document's JSON.
pub open spec fn idoc_json(d: SourceV) -> Seq<u8> {
    efrag_id() + quoted(d.id) + ifrag_wc() + dec_digits(tokens(d.content).len()) + ifrag_size()
        + dec_digits(d.content.len()) + ifrag_terms() + terms_json(term_table(tokens(d.content)))
        + seq![125u8, 125u8]
}

/// The index's documents array body.
pub open spec fn idocs_json(s: Seq<SourceV>) -> Seq<u8>
    decreases s.len(),
{
    if s.len() == 0 {
        Seq::empty()
    } else if s.len() == 1 {
        idoc_json(s[0])
    } else {
        idocs_json(s.drop_last()) + seq![44u8] + idoc_json(s.last())
    }
}

/// The index bytes, a function of the sorted sources alone.
pub open spec fn index_json(s: Seq<SourceV>) -> Seq<u8> {
    ifrag1() + idocs_json(s) + seq![93u8, 125u8]
}

/// Determinism law: two builds of the same sources differ only in the
/// manifest's `created_at` value; the index and the payloads are functions
/// of the sources alone, wherever the caches are written.
pub proof fn lemma_build_deterministic(srcs: Seq<SourceV>, c1: Seq<u8>, c2: Seq<u8>)
    ensures
        ({
            let s = sort_srcs(srcs);
            &&& manifest_json(s, c1) == manifest_stable(s) + quoted(c1) + seq![125u8]
            &&& manifest_json(s, c2) == manifest_stable(s) + quoted(c2) + seq![125u8]
            &&& manifest_json(s, c1).take(manifest_stable(s).len() as int) == manifest_json(
                s,
                c2,
            ).take(manifest_stable(s).len() as int)
        }),
{
    let s = sort_srcs(srcs);
    assert(manifest_json(s, c1).take(manifest_stable(s).len() as int) =~= manifest_stable(s));
    assert(manifest_json(s, c2).take(manifest_stable(s).len() as int) =~= manifest_stable(s));
}

fn push_entry_json(d: &SourceDoc, out: &mut Vec<u8>)
    ensures
        final(out)@ == old(out)@ + entry_json(d@),
{
    let f1: Vec<u8> = vec![123u8, 34, 105, 100, 34, 58];
    push_slice(f1.as_slice(), out);
    push_quoted(d.id.as_slice(), out);
    let f2: Vec<u8> = vec![44u8, 34, 102, 105, 108, 101, 34, 58];
    push_slice(f2.as_slice(), out);
    let name = payload_name_exec(d.id.as_slice());
    push_quoted(name.as_slice(), out);
    let f3: Vec<u8> = vec![44u8, 34, 102, 105, 110, 103, 101, 114, 112, 114, 105, 110, 116, 34,
        58];
    push_slice(f3.as_slice(), out);
    let h = fnv64_exec(d.content.as_slice());
    let mut hx: Vec<u8> = Vec::new();
    push_hex_u64(h, &mut hx);
    push_quoted(hx.as_slice(), out);
    out.push(125);
    assert(final(out)@ =~= old(out)@ + entry_json(d@));
}

fn push_idoc_json(d: &SourceDoc, out: &mut Vec<u8>)
    ensures
        final(out)@ == old(out)@ + idoc_json(d@),
{
    let f1: Vec<u8> = vec![123u8, 34, 105, 100, 34, 58];
    push_slice(f1.as_slice(), out);
    push_quoted(d.id.as_slice(), out);
    let f2: Vec<u8> = vec![44u8, 34, 119, 111, 114, 100, 95, 99, 111, 117, 110, 116, 34, 58];
    push_slice(f2.as_slice(), out);
    let toks = tokenize(d.content.as_slice());
    proof {
        assert(toks@.len() == tokens(d.content@).len()) by {
            assert(bytes_view(toks@).len() == toks@.len());
        }
    }
    push_u64_dec(toks.len() as u64, out);
    let f3: Vec<u8> = vec![44u8, 34, 115, 105, 122, 101, 34, 58];
    push_slice(f3.as_slice(), out);
    push_u64_dec(d.content.len() as u64, out);
    let f4: Vec<u8> = vec![44u8, 34, 116, 101, 114, 109, 115, 34, 58, 123];
    push_slice(f4.as_slice(), out);
    let table = term_table_exec(&toks);
    let ghost tt = term_table(bytes_view(toks@));
    let ghost base = out@;
    let m = table.len();
    let mut j: usize = 0;
    proof {
        assert(terms_json(tt.take(0)) =~= Seq::<u8>::empty());
        assert(out@ =~= base + terms_json(tt.take(0)));
    }
    while j < m
        invariant
            j <= m,
            m == table@.len(),
            tt == Seq::new(table@.len(), |k: int| (table@[k].0@, table@[k].1)),
            out@ == base + terms_json(tt.take(j as int)),
        decreases m - j,
    {
        if j > 0 {
            out.push(44);
        }
        push_quoted(table[j].0.as_slice(), out);
        out.push(58);
        push_u64_dec(table[j].1, out);
        j = j + 1;
        proof {
            assert(tt.take(j as int).last() == tt[j - 1]);
            assert(tt.take(j as int).drop_last() =~= tt.take(j - 1));
            if j == 1 {
                assert(terms_json(tt.take(1)) == term_json(tt[0]));
            }
            assert(out@ =~= base + terms_json(tt.take(j as int)));
        }
    }
    proof {
        assert(tt.take(m as int) =~= tt);
    }
    out.push(125);
    out.push(125);
    assert(final(out)@ =~= old(out)@ + idoc_json(d@));
}

/// Renders the index file for sorted sources.
#[verifier::loop_isolation(false)]
fn render_index_file(sorted: &Vec<SourceDoc>) -> (r: Vec<u8>)
    ensures
        r@ == index_json(Seq::new(sorted@.len(), |k: int| sorted@[k]@)),
{
    let ghost sv = Seq::new(sorted@.len(), |k: int| sorted@[k]@);
    let n = sorted.len();
    let mut index: Vec<u8> = Vec::new();
    let f1: Vec<u8> = vec![123u8, 34, 100, 111, 99, 117, 109, 101, 110, 116, 115, 34, 58, 91];
    push_slice(f1.as_slice(), &mut index);
    let mut i2: usize = 0;
    proof {
        assert(idocs_json(sv.take(0)) =~= Seq::<u8>::empty());
        assert(index@ =~= ifrag1() + idocs_json(sv.take(0)));
    }
    while i2 < n
        invariant
            i2 <= n,
            n == sorted@.len(),
            index@ == ifrag1() + idocs_json(sv.take(i2 as int)),
        decreases n - i2,
    {
        if i2 > 0 {
            index.push(44);
        }
        push_idoc_json(&sorted[i2], &mut index);
        i2 = i2 + 1;
        proof {
            assert(sv.take(i2 as int).last() == sv[i2 - 1]);
            assert(sv.take(i2 as int).drop_last() =~= sv.take(i2 - 1));
            if i2 == 1 {
                assert(idocs_json(sv.take(1)) == idoc_json(sv[0]));
            }
            assert(index@ =~= ifrag1() + idocs_json(sv.take(i2 as int)));
        }
    }
    index.push(93);
    index.push(125);
    proof {
        assert(sv.take(n as int) =~= sv);
        assert(index@ =~= index_json(sv));
    }
    index
}

/// Renders the manifest file for sorted sources and a timestamp.
#[verifier::loop_isolation(false)]
fn render_manifest_file(sorted: &Vec<SourceDoc>, created_at: &[u8]) -> (r: Vec<u8>)
    ensures
        r@ == manifest_json(Seq::new(sorted@.len(), |k: int| sorted@[k]@), created_at@),
{
    let ghost sv = Seq::new(sorted@.len(), |k: int| sorted@[k]@);
    let n = sorted.len();
    let mut manifest: Vec<u8> = Vec::new();
    let m1: Vec<u8> = vec![123u8, 34, 99, 97, 99, 104, 101, 95, 118, 101, 114, 115, 105, 111, 110,
        34, 58, 34, 49, 34, 44, 34, 98, 117, 105, 108, 100, 95, 99, 111, 110, 102, 105, 103, 34,
        58, 123, 34, 118, 101, 114, 115, 105, 111, 110, 34, 58, 49, 125, 44, 34, 100, 111, 99,
        117, 109, 101, 110, 116, 95, 99, 111, 117, 110, 116, 34, 58];
    push_slice(m1.as_slice(), &mut manifest);
    proof {
        assert(manifest@ =~= mfrag1());
    }
    push_u64_dec(n as u64, &mut manifest);
    let m2: Vec<u8> = vec![44u8, 34, 100, 111, 99, 117, 109, 101, 110, 116, 115, 34, 58, 91];
    push_slice(m2.as_slice(), &mut manifest);
    let mut i3: usize = 0;
    let ghost mbase = manifest@;
    proof {
        assert(entries_json(sv.take(0)) =~= Seq::<u8>::empty());
        assert(manifest@ =~= mbase + entries_json(sv.take(0)));
    }
    while i3 < n
        invariant
            i3 <= n,
            n == sorted@.len(),
            manifest@ == mbase + entries_json(sv.take(i3 as int)),
        decreases n - i3,
    {
        if i3 > 0 {
            manifest.push(44);
        }
        push_entry_json(&sorted[i3], &mut manifest);
        i3 = i3 + 1;
        proof {
            assert(sv.take(i3 as int).last() == sv[i3 - 1]);
            assert(sv.take(i3 as int).drop_last() =~= sv.take(i3 - 1));
            if i3 == 1 {
                assert(entries_json(sv.take(1)) == entry_json(sv[0]));
            }
            assert(manifest@ =~= mbase + entries_json(sv.take(i3 as int)));
        }
    }
    let m3: Vec<u8> = vec![93u8, 44, 34, 99, 114, 101, 97, 116, 101, 100, 95, 97, 116, 34, 58];
    push_slice(m3.as_slice(), &mut manifest);
    push_quoted(created_at, &mut manifest);
    manifest.push(125);
    proof {
        assert(sv.take(n as int) =~= sv);
        assert(mbase =~= mfrag1() + dec_digits(n as nat) + mfrag2());
        assert(dec_digits(sv.len()) == dec_digits(n as nat));
        assert(manifest@ =~= manifest_json(sv, created_at@));
    }
    manifest
}

/// Computes everything one build writes: the payload files, the index, and
/// the manifest, from the sources and the supplied timestamp. Two sources
/// with the same id cannot form a cache.
#[verifier::loop_isolation(false)]
pub fn build_plan(srcs: Vec<SourceDoc>, created_at: &[u8]) -> (r: Option<BuildPlan>)
    ensures
        ({
            let sorted = sort_srcs(Seq::new(srcs@.len(), |k: int| srcs@[k]@));
            match r {
                Some(plan) => {
                    &&& !has_dup_ids(sorted)
                    &&& plan.manifest@ == manifest_json(sorted, created_at@)
                    &&& plan.index@ == index_json(sorted)
                    &&& plan.payloads@.len() == sorted.len()
                    &&& forall|k: int|
                        0 <= k < sorted.len() ==> (#[trigger] plan.payloads@[k]).0@
                            == payload_name(sorted[k].id) && plan.payloads@[k].1@
                            == sorted[k].content
                },
                None => has_dup_ids(sorted),
            }
        }),
{
    let ghost srcv = Seq::new(srcs@.len(), |k: int| srcs@[k]@);
    let sorted = sort_srcs_exec(srcs);
    let ghost sv = sort_srcs(srcv);
    let n = sorted.len();
    // Two documents with one id cannot form a cache.
    let mut k: usize = 0;
    while n >= 1 && k < n - 1
        invariant
            k <= n,
            n == sorted@.len(),
            sv == Seq::new(sorted@.len(), |k2: int| sorted@[k2]@),
            forall|k2: int| 0 <= k2 < k && k2 < n - 1 ==> (#[trigger] sv[k2]).id != sv[k2 + 1].id,
        decreases n - k,
    {
        if bytes_eq(sorted[k].id.as_slice(), sorted[k + 1].id.as_slice()) {
            proof {
                assert(sv[k as int].id == sv[k + 1].id);
            }
            return None;
        }
        k = k + 1;
    }
    proof {
        if has_dup_ids(sv) {
            let kk = choose|kk: int| 0 <= kk < sv.len() - 1 && (#[trigger] sv[kk]).id == sv[kk
                + 1].id;
            assert(false);
        }
    }
    let mut payloads: Vec<(Vec<u8>, Vec<u8>)> = Vec::new();
    let mut i: usize = 0;
    while i < n
        invariant
            i <= n,
            n == sorted@.len(),
            sv == Seq::new(sorted@.len(), |k2: int| sorted@[k2]@),
            payloads@.len() == i,
            forall|k2: int| 0 <= k2 < i ==> (#[trigger] payloads@[k2]).0@ == payload_name(
                sv[k2].id,
            ) && payloads@[k2].1@ == sv[k2].content,
        decreases n - i,
    {
        let name = payload_name_exec(sorted[i].id.as_slice());
        payloads.push((name, sorted[i].content.clone()));
        i = i + 1;
    }
    let index = render_index_file(&sorted);
    let manifest = render_manifest_file(&sorted, created_at);
    Some(BuildPlan { manifest, index, payloads })
}

/// Splitting off the head splits the sum.
proof fn lemma_sum_cons(x: (Seq<u8>, u64), rest: Seq<(Seq<u8>, u64)>)
    ensures
        crate::cache::sum_counts(seq![x] + rest) == x.1 + crate::cache::sum_counts(rest),
    decreases rest.len(),
{
    let s = seq![x] + rest;
    assert(crate::cache::sum_counts(s) == crate::cache::sum_counts(s.drop_last()) + s.last().1);
    if rest.len() == 0 {
        assert(s.drop_last() =~= Seq::<(Seq<u8>, u64)>::empty());
        assert(s.last() == x);
        assert(crate::cache::sum_counts(s.drop_last()) == 0);
    } else {
        assert(s.drop_last() =~= seq![x] + rest.drop_last());
        assert(s.last() == rest.last());
        lemma_sum_cons(x, rest.drop_last());
        assert(crate::cache::sum_counts(rest) == crate::cache::sum_counts(rest.drop_last())
            + rest.last().1);
    }
}

/// One addition raises the total count by at most one.
proof fn lemma_add_term_sum(table: Seq<(Seq<u8>, u64)>, t: Seq<u8>)
    ensures
        crate::cache::sum_counts(add_term(table, t)) <= crate::cache::sum_counts(table) + 1,
    decreases table.len(),
{
    if table.len() == 0 {
        assert(add_term(table, t) =~= seq![(t, 1u64)]);
        assert(seq![(t, 1u64)].drop_last() =~= Seq::<(Seq<u8>, u64)>::empty());
        assert(crate::cache::sum_counts(seq![(t, 1u64)]) == crate::cache::sum_counts(
            seq![(t, 1u64)].drop_last(),
        ) + 1);
    } else if table.first().0 == t {
        let c = table.first().1;
        let c2: u64 = if c == u64::MAX {
            u64::MAX
        } else {
            (c + 1) as u64
        };
        lemma_sum_cons((t, c2), table.drop_first());
        lemma_sum_cons(table.first(), table.drop_first());
        assert(table =~= seq![table.first()] + table.drop_first());
    } else if lex_lt(t, table.first().0) {
        lemma_sum_cons((t, 1u64), table);
    } else {
        lemma_add_term_sum(table.drop_first(), t);
        lemma_sum_cons(table.first(), add_term(table.drop_first(), t));
        lemma_sum_cons(table.first(), table.drop_first());
        assert(table =~= seq![table.first()] + table.drop_first());
    }
}

/// A built term table never counts more words than there were tokens, so
/// every cache this builder writes passes the loader's count validation.
pub proof fn lemma_built_terms_bounded(toks: Seq<Seq<u8>>)
    ensures
        crate::cache::sum_counts(term_table(toks)) <= toks.len(),
    decreases toks.len(),
{
    if toks.len() > 0 {
        lemma_built_terms_bounded(toks.drop_last());
        lemma_add_term_sum(term_table(toks.drop_last()), toks.last());
    }
}

} // verus!
