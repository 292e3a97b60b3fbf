use vstd::prelude::*;
use vstd::utf8::*;

use vstd::slice::{slice_subrange, slice_to_vec};

use crate::cache::TagCache;
use crate::{EntryView, Tag, TaggedFile};

verus! {

/// `n` as eight bytes, least significant first.
pub open spec fn le_bytes(n: u64) -> Seq<u8> {
    seq![
        n as u8,
        (n >> 8u64) as u8,
        (n >> 16u64) as u8,
        (n >> 24u64) as u8,
        (n >> 32u64) as u8,
        (n >> 40u64) as u8,
        (n >> 48u64) as u8,
        (n >> 56u64) as u8,
    ]
}

/// The number whose least significant byte stands at `b[pos]`, the rest after it.
pub open spec fn le_value(b: Seq<u8>, pos: int) -> u64 {
    (b[pos] as u64) | ((b[pos + 1] as u64) << 8u64) | ((b[pos + 2] as u64) << 16u64) | ((b[pos
        + 3] as u64) << 24u64) | ((b[pos + 4] as u64) << 32u64) | ((b[pos + 5] as u64) << 40u64)
        | ((b[pos + 6] as u64) << 48u64) | ((b[pos + 7] as u64) << 56u64)
}

/// A string: the length of its UTF-8 form, then that form.
pub open spec fn enc_str(s: Seq<char>) -> Seq<u8> {
    le_bytes(encode_utf8(s).len() as u64) + encode_utf8(s)
}

/// Strings one after the other, with no count in front.
pub open spec fn enc_strs(ts: Seq<Seq<char>>) -> Seq<u8>
    decreases ts.len(),
{
    if ts.len() == 0 {
        Seq::empty()
    } else {
        enc_strs(ts.drop_last()) + enc_str(ts.last())
    }
}

/// An entry: its path, the number of its tags, then the tags.
pub open spec fn enc_entry(e: EntryView) -> Seq<u8> {
    enc_str(e.0) + le_bytes(e.1.len() as u64) + enc_strs(e.1)
}

/// Entries one after the other, with no count in front.
pub open spec fn enc_entries(es: Seq<EntryView>) -> Seq<u8>
    decreases es.len(),
{
    if es.len() == 0 {
        Seq::empty()
    } else {
        enc_entries(es.drop_last()) + enc_entry(es.last())
    }
}

/// The encoded form of a cache: the number of entries, then the entries.
pub open spec fn encoding(c: Seq<EntryView>) -> Seq<u8> {
    le_bytes(c.len() as u64) + enc_entries(c)
}

pub open spec fn fits_str(s: Seq<char>) -> bool {
    encode_utf8(s).len() <= u64::MAX
}

pub open spec fn fits_entry(e: EntryView) -> bool {
    &&& fits_str(e.0)
    &&& e.1.len() <= u64::MAX
    &&& forall|i: int| 0 <= i < e.1.len() ==> fits_str(#[trigger] e.1[i])
}

/// Every count and every length of `c` can be written in eight bytes.
pub open spec fn fits(c: Seq<EntryView>) -> bool {
    &&& c.len() <= u64::MAX
    &&& forall|i: int| 0 <= i < c.len() ==> fits_entry(#[trigger] c[i])
}

/// `x` stands in `b` from `pos` on.
spec fn at(b: Seq<u8>, pos: int, x: Seq<u8>) -> bool {
    0 <= pos && pos + x.len() <= b.len() && b.subrange(pos, pos + x.len()) == x
}

proof fn lemma_at_concat(b: Seq<u8>, pos: int, x: Seq<u8>, y: Seq<u8>)
    ensures
        at(b, pos, x + y) <==> at(b, pos, x) && at(b, pos + x.len(), y),
{
    if at(b, pos, x + y) {
        assert(b.subrange(pos, pos + x.len()) =~= (x + y).subrange(0, x.len() as int));
        assert(b.subrange(pos + x.len(), pos + x.len() + y.len()) =~= (x + y).subrange(
            x.len() as int,
            (x.len() + y.len()) as int,
        ));
        assert((x + y).subrange(0, x.len() as int) =~= x);
        assert((x + y).subrange(x.len() as int, (x.len() + y.len()) as int) =~= y);
    }
    if at(b, pos, x) && at(b, pos + x.len(), y) {
        assert(b.subrange(pos, pos + (x + y).len()) =~= b.subrange(pos, pos + x.len())
            + b.subrange(pos + x.len(), pos + x.len() + y.len()));
    }
}

proof fn lemma_le_value(b: Seq<u8>, pos: int, n: u64)
    requires
        at(b, pos, le_bytes(n)),
    ensures
        le_value(b, pos) == n,
{
    assert(b[pos] == b.subrange(pos, pos + 8)[0]);
    assert(b[pos + 1] == b.subrange(pos, pos + 8)[1]);
    assert(b[pos + 2] == b.subrange(pos, pos + 8)[2]);
    assert(b[pos + 3] == b.subrange(pos, pos + 8)[3]);
    assert(b[pos + 4] == b.subrange(pos, pos + 8)[4]);
    assert(b[pos + 5] == b.subrange(pos, pos + 8)[5]);
    assert(b[pos + 6] == b.subrange(pos, pos + 8)[6]);
    assert(b[pos + 7] == b.subrange(pos, pos + 8)[7]);
    let (b0, b1, b2, b3, b4, b5, b6, b7) = (
        b[pos],
        b[pos + 1],
        b[pos + 2],
        b[pos + 3],
        b[pos + 4],
        b[pos + 5],
        b[pos + 6],
        b[pos + 7],
    );
    assert(b0 == n as u8 && b1 == (n >> 8u64) as u8 && b2 == (n >> 16u64) as u8 && b3 == (n
        >> 24u64) as u8 && b4 == (n >> 32u64) as u8 && b5 == (n >> 40u64) as u8 && b6 == (n
        >> 48u64) as u8 && b7 == (n >> 56u64) as u8 ==> (b0 as u64) | ((b1 as u64) << 8u64) | ((
    b2 as u64) << 16u64) | ((b3 as u64) << 24u64) | ((b4 as u64) << 32u64) | ((b5 as u64)
        << 40u64) | ((b6 as u64) << 48u64) | ((b7 as u64) << 56u64) == n) by (bit_vector);
}

proof fn lemma_le_bytes(b: Seq<u8>, pos: int)
    requires
        0 <= pos && pos + 8 <= b.len(),
    ensures
        at(b, pos, le_bytes(le_value(b, pos))),
{
    let (b0, b1, b2, b3, b4, b5, b6, b7) = (
        b[pos],
        b[pos + 1],
        b[pos + 2],
        b[pos + 3],
        b[pos + 4],
        b[pos + 5],
        b[pos + 6],
        b[pos + 7],
    );
    let n = le_value(b, pos);
    assert(n == (b0 as u64) | ((b1 as u64) << 8u64) | ((b2 as u64) << 16u64) | ((b3 as u64)
        << 24u64) | ((b4 as u64) << 32u64) | ((b5 as u64) << 40u64) | ((b6 as u64) << 48u64)
        | ((b7 as u64) << 56u64) ==> b0 == n as u8 && b1 == (n >> 8u64) as u8 && b2 == (n
        >> 16u64) as u8 && b3 == (n >> 24u64) as u8 && b4 == (n >> 32u64) as u8 && b5 == (n
        >> 40u64) as u8 && b6 == (n >> 48u64) as u8 && b7 == (n >> 56u64) as u8) by (bit_vector);
    assert(b.subrange(pos, pos + 8) =~= le_bytes(n));
}

spec fn read_u64(b: Seq<u8>, pos: int) -> Option<(u64, int)> {
    if 0 <= pos && pos + 8 <= b.len() {
        Some((le_value(b, pos), pos + 8))
    } else {
        None
    }
}

spec fn read_str(b: Seq<u8>, pos: int) -> Option<(Seq<char>, int)> {
    match read_u64(b, pos) {
        Some((n, p)) => {
            if p + n <= b.len() && valid_utf8(b.subrange(p, p + n)) {
                Some((decode_utf8(b.subrange(p, p + n)), p + n))
            } else {
                None
            }
        },
        None => None,
    }
}

spec fn read_strs(b: Seq<u8>, pos: int, n: nat) -> Option<(Seq<Seq<char>>, int)>
    decreases n,
{
    if n == 0 {
        Some((Seq::empty(), pos))
    } else {
        match read_strs(b, pos, (n - 1) as nat) {
            Some((ts, p)) => match read_str(b, p) {
                Some((t, q)) => Some((ts.push(t), q)),
                None => None,
            },
            None => None,
        }
    }
}

spec fn read_entry(b: Seq<u8>, pos: int) -> Option<(EntryView, int)> {
    match read_str(b, pos) {
        Some((path, p)) => match read_u64(b, p) {
            Some((n, q)) => match read_strs(b, q, n as nat) {
                Some((ts, r)) => Some(((path, ts), r)),
                None => None,
            },
            None => None,
        },
        None => None,
    }
}

spec fn read_entries(b: Seq<u8>, pos: int, n: nat) -> Option<(Seq<EntryView>, int)>
    decreases n,
{
    if n == 0 {
        Some((Seq::empty(), pos))
    } else {
        match read_entries(b, pos, (n - 1) as nat) {
            Some((es, p)) => match read_entry(b, p) {
                Some((e, q)) => Some((es.push(e), q)),
                None => None,
            },
            None => None,
        }
    }
}

spec fn read_cache(b: Seq<u8>) -> Option<Seq<EntryView>> {
    match read_u64(b, 0) {
        Some((n, p)) => match read_entries(b, p, n as nat) {
            Some((es, q)) => if q == b.len() {
                Some(es)
            } else {
                None
            },
            None => None,
        },
        None => None,
    }
}

proof fn lemma_read_str_complete(b: Seq<u8>, pos: int, s: Seq<char>)
    requires
        fits_str(s),
        at(b, pos, enc_str(s)),
    ensures
        read_str(b, pos) == Some((s, pos + enc_str(s).len())),
{
    let u = encode_utf8(s);
    lemma_at_concat(b, pos, le_bytes(u.len() as u64), u);
    lemma_le_value(b, pos, u.len() as u64);
    encode_utf8_valid_utf8(s);
    encode_utf8_decode_utf8(s);
}

proof fn lemma_read_str_sound(b: Seq<u8>, pos: int)
    requires
        read_str(b, pos) is Some,
    ensures
        ({
            let (s, q) = read_str(b, pos)->0;
            fits_str(s) && at(b, pos, enc_str(s)) && q == pos + enc_str(s).len()
        }),
{
    let n = le_value(b, pos);
    let u = b.subrange(pos + 8, pos + 8 + n);
    lemma_le_bytes(b, pos);
    decode_utf8_encode_utf8(u);
    lemma_at_concat(b, pos, le_bytes(n), u);
}

proof fn lemma_read_strs_complete(b: Seq<u8>, pos: int, ts: Seq<Seq<char>>)
    requires
        forall|i: int| 0 <= i < ts.len() ==> fits_str(#[trigger] ts[i]),
        at(b, pos, enc_strs(ts)),
    ensures
        read_strs(b, pos, ts.len()) == Some((ts, pos + enc_strs(ts).len())),
    decreases ts.len(),
{
    if ts.len() > 0 {
        let init = ts.drop_last();
        lemma_at_concat(b, pos, enc_strs(init), enc_str(ts.last()));
        lemma_read_strs_complete(b, pos, init);
        lemma_read_str_complete(b, pos + enc_strs(init).len(), ts.last());
        assert(init.push(ts.last()) =~= ts);
    }
}

proof fn lemma_read_strs_sound(b: Seq<u8>, pos: int, n: nat)
    requires
        0 <= pos <= b.len(),
        read_strs(b, pos, n) is Some,
    ensures
        ({
            let (ts, q) = read_strs(b, pos, n)->0;
            &&& ts.len() == n
            &&& forall|i: int| 0 <= i < ts.len() ==> fits_str(#[trigger] ts[i])
            &&& at(b, pos, enc_strs(ts))
            &&& q == pos + enc_strs(ts).len()
        }),
    decreases n,
{
    if n > 0 {
        lemma_read_strs_sound(b, pos, (n - 1) as nat);
        let (init, p) = read_strs(b, pos, (n - 1) as nat)->0;
        lemma_read_str_sound(b, p);
        let (t, q) = read_str(b, p)->0;
        let ts = init.push(t);
        assert(ts.drop_last() =~= init);
        assert forall|i: int| 0 <= i < ts.len() implies fits_str(#[trigger] ts[i]) by {
            if i < init.len() {
                assert(ts[i] == init[i]);
            }
        }
        assert(ts.last() == t);
        lemma_at_concat(b, pos, enc_strs(init), enc_str(t));
    } else {
        assert(b.subrange(pos, pos) =~= enc_strs(Seq::<Seq<char>>::empty()));
    }
}

proof fn lemma_read_entry_complete(b: Seq<u8>, pos: int, e: EntryView)
    requires
        fits_entry(e),
        at(b, pos, enc_entry(e)),
    ensures
        read_entry(b, pos) == Some((e, pos + enc_entry(e).len())),
{
    let head = enc_str(e.0);
    let count = le_bytes(e.1.len() as u64);
    lemma_at_concat(b, pos, head + count, enc_strs(e.1));
    lemma_at_concat(b, pos, head, count);
    lemma_read_str_complete(b, pos, e.0);
    lemma_le_value(b, pos + head.len(), e.1.len() as u64);
    lemma_read_strs_complete(b, pos + head.len() + 8, e.1);
}

proof fn lemma_read_entry_sound(b: Seq<u8>, pos: int)
    requires
        read_entry(b, pos) is Some,
    ensures
        ({
            let (e, q) = read_entry(b, pos)->0;
            fits_entry(e) && at(b, pos, enc_entry(e)) && q == pos + enc_entry(e).len()
        }),
{
    lemma_read_str_sound(b, pos);
    let (path, p) = read_str(b, pos)->0;
    let n = le_value(b, p);
    lemma_le_bytes(b, p);
    lemma_read_strs_sound(b, p + 8, n as nat);
    let (ts, r) = read_strs(b, p + 8, n as nat)->0;
    let head = enc_str(path);
    let count = le_bytes(n);
    lemma_at_concat(b, pos, head, count);
    lemma_at_concat(b, pos, head + count, enc_strs(ts));
}

proof fn lemma_read_entries_complete(b: Seq<u8>, pos: int, es: Seq<EntryView>)
    requires
        forall|i: int| 0 <= i < es.len() ==> fits_entry(#[trigger] es[i]),
        at(b, pos, enc_entries(es)),
    ensures
        read_entries(b, pos, es.len()) == Some((es, pos + enc_entries(es).len())),
    decreases es.len(),
{
    if es.len() > 0 {
        let init = es.drop_last();
        lemma_at_concat(b, pos, enc_entries(init), enc_entry(es.last()));
        lemma_read_entries_complete(b, pos, init);
        lemma_read_entry_complete(b, pos + enc_entries(init).len(), es.last());
        assert(init.push(es.last()) =~= es);
    }
}

proof fn lemma_read_entries_sound(b: Seq<u8>, pos: int, n: nat)
    requires
        0 <= pos <= b.len(),
        read_entries(b, pos, n) is Some,
    ensures
        ({
            let (es, q) = read_entries(b, pos, n)->0;
            &&& es.len() == n
            &&& forall|i: int| 0 <= i < es.len() ==> fits_entry(#[trigger] es[i])
            &&& at(b, pos, enc_entries(es))
            &&& q == pos + enc_entries(es).len()
        }),
    decreases n,
{
    if n > 0 {
        lemma_read_entries_sound(b, pos, (n - 1) as nat);
        let (init, p) = read_entries(b, pos, (n - 1) as nat)->0;
        lemma_read_entry_sound(b, p);
        let (e, q) = read_entry(b, p)->0;
        let es = init.push(e);
        assert(es.drop_last() =~= init);
        assert forall|i: int| 0 <= i < es.len() implies fits_entry(#[trigger] es[i]) by {
            if i < init.len() {
                assert(es[i] == init[i]);
            }
        }
        assert(es.last() == e);
        lemma_at_concat(b, pos, enc_entries(init), enc_entry(e));
    } else {
        assert(b.subrange(pos, pos) =~= enc_entries(Seq::<EntryView>::empty()));
    }
}

/// Reading the front of `b` as a cache stops where the encoding of `c` ends.
proof fn lemma_read_encoding(b: Seq<u8>, c: Seq<EntryView>)
    requires
        fits(c),
        at(b, 0, encoding(c)),
    ensures
        read_u64(b, 0) == Some((c.len() as u64, 8int)),
        read_entries(b, 8, c.len()) == Some((c, encoding(c).len() as int)),
{
    lemma_at_concat(b, 0, le_bytes(c.len() as u64), enc_entries(c));
    lemma_le_value(b, 0, c.len() as u64);
    lemma_read_entries_complete(b, 8, c);
}

proof fn lemma_read_cache_complete(c: Seq<EntryView>)
    requires
        fits(c),
    ensures
        read_cache(encoding(c)) == Some(c),
{
    let b = encoding(c);
    assert(b.subrange(0, b.len() as int) =~= b);
    lemma_read_encoding(b, c);
}

proof fn lemma_read_cache_sound(b: Seq<u8>)
    requires
        read_cache(b) is Some,
    ensures
        fits(read_cache(b)->0),
        encoding(read_cache(b)->0) == b,
{
    let n = le_value(b, 0);
    lemma_le_bytes(b, 0);
    lemma_read_entries_sound(b, 8, n as nat);
    let (es, q) = read_entries(b, 8, n as nat)->0;
    lemma_at_concat(b, 0, le_bytes(n), enc_entries(es));
    assert(b.subrange(0, b.len() as int) =~= b);
}

/// Round trip of the encoding: two caches with the same encoded form hold the
/// same entries, in the same order, with the same paths and tags. What
/// `decode` returns for the encoding of a cache is therefore that cache.
pub proof fn lemma_encoding_injective(c: Seq<EntryView>, d: Seq<EntryView>)
    requires
        fits(c),
        fits(d),
        encoding(c) == encoding(d),
    ensures
        c == d,
{
    lemma_read_cache_complete(c);
    lemma_read_cache_complete(d);
}

/// No encoding of a cache is a strict prefix of the encoding of another: a
/// truncated encoding never decodes.
pub proof fn lemma_encoding_prefix_free(c: Seq<EntryView>, d: Seq<EntryView>, len: int)
    requires
        fits(c),
        fits(d),
        0 <= len < encoding(c).len(),
    ensures
        encoding(d) != encoding(c).subrange(0, len),
{
    let b = encoding(c);
    if encoding(d) == b.subrange(0, len) {
        assert(b.subrange(0, encoding(d).len() as int) == encoding(d));
        assert(at(b, 0, encoding(d)));
        assert(b.subrange(0, b.len() as int) =~= b);
        assert(at(b, 0, encoding(c)));
        lemma_read_encoding(b, d);
        lemma_read_encoding(b, c);
        assert(c.len() == d.len());
        assert(encoding(c).len() == encoding(d).len());
    }
}

fn push_u64(out: &mut Vec<u8>, n: u64)
    ensures
        final(out)@ == old(out)@ + le_bytes(n),
{
    out.push(n as u8);
    out.push((n >> 8u64) as u8);
    out.push((n >> 16u64) as u8);
    out.push((n >> 24u64) as u8);
    out.push((n >> 32u64) as u8);
    out.push((n >> 40u64) as u8);
    out.push((n >> 48u64) as u8);
    out.push((n >> 56u64) as u8);
    assert(out@ =~= old(out)@ + le_bytes(n));
}

fn push_str(out: &mut Vec<u8>, s: &str)
    ensures
        final(out)@ == old(out)@ + enc_str(s@),
        fits_str(s@),
{
    let bytes = s.as_bytes();
    let n = bytes.len();
    push_u64(out, n as u64);
    let ghost start = out@;
    let mut i: usize = 0;
    while i < n
        invariant
            n == bytes@.len(),
            i <= n,
            out@ == start + bytes@.subrange(0, i as int),
        decreases n - i,
    {
        out.push(bytes[i]);
        i = i + 1;
        assert(bytes@.subrange(0, i as int) =~= bytes@.subrange(0, i - 1).push(bytes@[i - 1]));
    }
    assert(bytes@.subrange(0, n as int) =~= bytes@);
}

fn push_entry(out: &mut Vec<u8>, file: &TaggedFile)
    ensures
        final(out)@ == old(out)@ + enc_entry(file@),
        fits_entry(file@),
{
    push_str(out, file.path.as_str());
    let n = file.tags.len();
    push_u64(out, n as u64);
    let ghost start = out@;
    let ghost tags = file@.1;
    let mut i: usize = 0;
    while i < n
        invariant
            n == file.tags@.len(),
            tags == file@.1,
            tags.len() == n,
            i <= n,
            out@ == start + enc_strs(tags.subrange(0, i as int)),
            forall|k: int| 0 <= k < i ==> fits_str(#[trigger] tags[k]),
        decreases n - i,
    {
        push_str(out, file.tags[i].0.as_str());
        i = i + 1;
        assert(tags.subrange(0, i as int).drop_last() =~= tags.subrange(0, i - 1));
    }
    assert(tags.subrange(0, n as int) =~= tags);
    assert(out@ =~= old(out)@ + enc_entry(file@));
}

/// Encodes a cache: the number of entries, then for each its path, the number
/// of its tags and the tags, every count and length as eight little-endian
/// bytes and every string as UTF-8.
pub fn encode(cache: &TagCache) -> (r: Vec<u8>)
    ensures
        r@ == encoding(cache@),
        fits(cache@),
{
    let mut out: Vec<u8> = Vec::new();
    let n = cache.tagged_files.len();
    push_u64(&mut out, n as u64);
    let ghost files = cache@;
    let mut i: usize = 0;
    while i < n
        invariant
            n == cache.tagged_files@.len(),
            files == cache@,
            files.len() == n,
            i <= n,
            out@ == le_bytes(n as u64) + enc_entries(files.subrange(0, i as int)),
            forall|k: int| 0 <= k < i ==> fits_entry(#[trigger] files[k]),
        decreases n - i,
    {
        push_entry(&mut out, &cache.tagged_files[i]);
        i = i + 1;
        assert(files.subrange(0, i as int).drop_last() =~= files.subrange(0, i - 1));
    }
    assert(files.subrange(0, n as int) =~= files);
    out
}

proof fn lemma_read_strs_stops(b: Seq<u8>, pos: int, k: nat, m: nat)
    requires
        k <= m,
        read_strs(b, pos, k) is None,
    ensures
        read_strs(b, pos, m) is None,
    decreases m - k,
{
    if k < m {
        lemma_read_strs_stops(b, pos, k, (m - 1) as nat);
    }
}

proof fn lemma_read_entries_stops(b: Seq<u8>, pos: int, k: nat, m: nat)
    requires
        k <= m,
        read_entries(b, pos, k) is None,
    ensures
        read_entries(b, pos, m) is None,
    decreases m - k,
{
    if k < m {
        lemma_read_entries_stops(b, pos, k, (m - 1) as nat);
    }
}

/// Relies on `String::from_utf8`: it accepts exactly the valid UTF-8 byte
/// sequences, and returns the text that they encode.
#[verifier::external_body]
fn string_from_utf8(v: Vec<u8>) -> (r: Option<String>)
    ensures
        r is Some == valid_utf8(v@),
        r matches Some(s) ==> s@ == decode_utf8(v@),
{
    String::from_utf8(v).ok()
}

fn read_u64_at(b: &[u8], pos: usize) -> (r: Option<u64>)
    ensures
        read_u64(b@, pos as int) == match r {
            Some(n) => Some((n, pos + 8)),
            None => None::<(u64, int)>,
        },
        r is Some ==> pos + 8 <= b@.len(),
{
    if pos > b.len() || b.len() - pos < 8 {
        return None;
    }
    Some((b[pos] as u64) | ((b[pos + 1] as u64) << 8u64) | ((b[pos + 2] as u64) << 16u64) | ((b[pos
        + 3] as u64) << 24u64) | ((b[pos + 4] as u64) << 32u64) | ((b[pos + 5] as u64) << 40u64)
        | ((b[pos + 6] as u64) << 48u64) | ((b[pos + 7] as u64) << 56u64))
}

fn read_str_at(b: &[u8], pos: usize) -> (r: Option<(String, usize)>)
    ensures
        read_str(b@, pos as int) == match r {
            Some((s, q)) => Some((s@, q as int)),
            None => None::<(Seq<char>, int)>,
        },
{
    let n = match read_u64_at(b, pos) {
        Some(n) => n,
        None => return None,
    };
    let len = b.len();
    let p = pos + 8;
    if n > (len - p) as u64 {
        return None;
    }
    let end = p + n as usize;
    let v = slice_to_vec(slice_subrange(b, p, end));
    match string_from_utf8(v) {
        Some(s) => Some((s, end)),
        None => None,
    }
}

fn read_tags_at(b: &[u8], pos: usize, n: u64) -> (r: Option<(Vec<Tag>, usize)>)
    requires
        pos <= b@.len(),
    ensures
        read_strs(b@, pos as int, n as nat) == match r {
            Some((ts, q)) => Some((ts@.map_values(|t: Tag| t@), q as int)),
            None => None::<(Seq<Seq<char>>, int)>,
        },
{
    let mut tags: Vec<Tag> = Vec::new();
    let mut p = pos;
    let mut i: u64 = 0;
    while i < n
        invariant
            i <= n,
            read_strs(b@, pos as int, i as nat) == Some(
                (tags@.map_values(|t: Tag| t@), p as int),
            ),
        decreases n - i,
    {
        match read_str_at(b, p) {
            Some((s, q)) => {
                let ghost prev = tags@;
                tags.push(Tag(s));
                p = q;
                i = i + 1;
                assert(tags@.map_values(|t: Tag| t@) =~= prev.map_values(|t: Tag| t@).push(
                    tags@.last()@,
                ));
            },
            None => {
                proof {
                    lemma_read_strs_stops(b@, pos as int, (i + 1) as nat, n as nat);
                }
                return None;
            },
        }
    }
    Some((tags, p))
}

fn read_entry_at(b: &[u8], pos: usize) -> (r: Option<(TaggedFile, usize)>)
    ensures
        read_entry(b@, pos as int) == match r {
            Some((f, q)) => Some((f@, q as int)),
            None => None::<(EntryView, int)>,
        },
{
    let (path, p) = match read_str_at(b, pos) {
        Some(x) => x,
        None => return None,
    };
    let n = match read_u64_at(b, p) {
        Some(n) => n,
        None => return None,
    };
    let len = b.len();
    assert(p + 8 <= len);
    match read_tags_at(b, p + 8, n) {
        Some((tags, q)) => Some((TaggedFile { path, tags }, q)),
        None => None,
    }
}

/// Decodes what `encode` produced. It succeeds exactly when `bytes` is the
/// encoding of some cache, and then returns that cache.
pub fn decode(bytes: &[u8]) -> (r: Option<TagCache>)
    ensures
        r matches Some(c) ==> fits(c@) && encoding(c@) == bytes@,
        r is None ==> forall|c: Seq<EntryView>| fits(c) ==> #[trigger] encoding(c) != bytes@,
{
    let r = decode_entries(bytes);
    proof {
        if r is Some {
            lemma_read_cache_sound(bytes@);
        } else {
            lemma_no_encoding(bytes@);
        }
    }
    r
}

proof fn lemma_no_encoding(b: Seq<u8>)
    requires
        read_cache(b) is None,
    ensures
        forall|c: Seq<EntryView>| fits(c) ==> #[trigger] encoding(c) != b,
{
    assert forall|c: Seq<EntryView>| fits(c) implies #[trigger] encoding(c) != b by {
        if encoding(c) == b {
            lemma_read_cache_complete(c);
        }
    }
}

fn decode_entries(b: &[u8]) -> (r: Option<TagCache>)
    ensures
        read_cache(b@) == match r {
            Some(c) => Some(c@),
            None => None::<Seq<EntryView>>,
        },
{
    let n = match read_u64_at(b, 0) {
        Some(n) => n,
        None => return None,
    };
    let mut files: Vec<TaggedFile> = Vec::new();
    let mut p: usize = 8;
    let mut i: u64 = 0;
    while i < n
        invariant
            i <= n,
            read_u64(b@, 0) == Some((n, 8int)),
            read_entries(b@, 8, i as nat) == Some(
                (files@.map_values(|f: TaggedFile| f@), p as int),
            ),
        decreases n - i,
    {
        match read_entry_at(b, p) {
            Some((f, q)) => {
                let ghost prev = files@;
                files.push(f);
                p = q;
                i = i + 1;
                assert(files@.map_values(|f: TaggedFile| f@) =~= prev.map_values(
                    |f: TaggedFile| f@,
                ).push(files@.last()@));
            },
            None => {
                proof {
                    lemma_read_entries_stops(b@, 8, (i + 1) as nat, n as nat);
                }
                return None;
            },
        }
    }
    if p != b.len() {
        return None;
    }
    Some(TagCache { tagged_files: files })
}

} // verus!
