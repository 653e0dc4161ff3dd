//! How a credential too long for one keyring entry is laid out over several
//! entries, and how it is read back.
//!
//! A value of at most [`SAFE_CHUNK_SIZE_BYTES`] UTF-8 bytes is written to the entry
//! `<prefix>.<key>`. A longer value is cut, at character boundaries, into the
//! longest pieces of at most that many bytes; the entry `<prefix>.<key>` then holds
//! the marker `CHUNKS:<n>` and the pieces go to `<prefix>.<key>_1` to
//! `<prefix>.<key>_<n>`.

use vstd::prelude::*;

use crate::text::{
    chars_of, char_width, concat2, decimal, format_usize, lemma_decimal_digits,
    lemma_decimal_injective, lemma_encode_push, lemma_parse_format_usize, parse_unsigned,
    parse_usize, push_char, starts_with_text, utf8_byte_count, utf8_len, utf8_width,
};

verus! {

/// Largest number of UTF-8 bytes written to one keyring entry. The Windows credential
/// manager allows 2560 bytes of UTF-16 per entry; 1000 UTF-8 bytes of ASCII take 2000.
pub const SAFE_CHUNK_SIZE_BYTES: usize = 1000;

/// The views of a list of strings.
pub open spec fn views(v: Seq<String>) -> Seq<Seq<char>> {
    v.map_values(|s: String| s@)
}

/// The pieces joined in order.
pub open spec fn concat_chunks(chunks: Seq<Seq<char>>) -> Seq<char>
    decreases chunks.len(),
{
    if chunks.len() == 0 {
        Seq::empty()
    } else {
        concat_chunks(chunks.drop_last()) + chunks.last()
    }
}

/// `chunks` cuts `value` greedily: joined they give `value`, none is empty or longer
/// than [`SAFE_CHUNK_SIZE_BYTES`] bytes, and each but the last is as long as it can be
/// (its next character would not fit).
pub open spec fn is_chunking(value: Seq<char>, chunks: Seq<Seq<char>>) -> bool {
    &&& concat_chunks(chunks) == value
    &&& forall|i: int|
        0 <= i < chunks.len() ==> #[trigger] chunks[i].len() > 0 && utf8_len(chunks[i]) <= 1000
    &&& forall|i: int|
        0 <= i < chunks.len() - 1 ==> utf8_len(#[trigger] chunks[i]) + char_width(chunks[i + 1][0])
            > 1000
}

proof fn lemma_utf8_len_push(s: Seq<char>, c: char)
    ensures
        utf8_len(s.push(c)) == utf8_len(s) + char_width(c),
{
    lemma_encode_push(s, c);
}

/// Cuts a value into keyring-sized pieces (see [`is_chunking`]).
pub fn split_into_chunks(value: &str) -> (chunks: Vec<String>)
    ensures
        is_chunking(value@, views(chunks@)),
        chunks@.len() <= value@.len(),
{
    let cs = chars_of(value);
    let mut chunks: Vec<String> = Vec::new();
    let mut current = String::new();
    let mut current_bytes: usize = 0;
    let mut i: usize = 0;
    proof {
        assert(value@.take(0) =~= Seq::<char>::empty());
        assert(views(chunks@) =~= Seq::<Seq<char>>::empty());
        assert(vstd::utf8::encode_utf8(Seq::<char>::empty()) =~= Seq::<u8>::empty());
    }
    while i < cs.len()
        invariant
            cs@ == value@,
            i <= cs.len(),
            concat_chunks(views(chunks@)) + current@ == value@.take(i as int),
            current_bytes == utf8_len(current@),
            current_bytes <= 1000,
            i > 0 ==> current@.len() > 0,
            i == 0 ==> chunks@.len() == 0 && current@.len() == 0,
            chunks@.len() + (if current@.len() > 0 {
                1int
            } else {
                0int
            }) <= i,
            forall|j: int|
                0 <= j < chunks@.len() ==> #[trigger] views(chunks@)[j].len() > 0 && utf8_len(
                    views(chunks@)[j],
                ) <= 1000,
            forall|j: int|
                0 <= j < chunks@.len() - 1 ==> utf8_len(#[trigger] views(chunks@)[j]) + char_width(
                    views(chunks@)[j + 1][0],
                ) > 1000,
            chunks@.len() > 0 ==> utf8_len(views(chunks@).last()) + char_width(current@[0]) > 1000,
        decreases cs.len() - i,
    {
        let c = cs[i];
        let w = utf8_width(c);
        if current_bytes + w > SAFE_CHUNK_SIZE_BYTES {
            let ghost before = views(chunks@);
            let ghost cur = current@;
            let full = current;
            chunks.push(full);
            current = String::new();
            current_bytes = 0;
            proof {
                assert(views(chunks@) =~= before.push(cur));
                assert(views(chunks@).drop_last() =~= before);
                assert(concat_chunks(views(chunks@)) =~= concat_chunks(before) + cur);
                assert(current@ =~= Seq::<char>::empty());
                assert(concat_chunks(views(chunks@)) + current@ =~= concat_chunks(before) + cur);
                assert(vstd::utf8::encode_utf8(Seq::<char>::empty()) =~= Seq::<u8>::empty());
                assert forall|j: int| 0 <= j < chunks@.len() - 1 implies utf8_len(
                    #[trigger] views(chunks@)[j],
                ) + char_width(views(chunks@)[j + 1][0]) > 1000 by {
                    if j < before.len() - 1 {
                        assert(views(chunks@)[j] == before[j]);
                        assert(views(chunks@)[j + 1] == before[j + 1]);
                    } else {
                        assert(views(chunks@)[j] == before.last());
                        assert(views(chunks@)[j + 1] == cur);
                    }
                }
            }
        }
        let ghost old_current = current@;
        push_char(&mut current, c);
        proof {
            lemma_utf8_len_push(old_current, c);
            assert(value@.take(i + 1) =~= value@.take(i as int).push(c));
            assert(current@[0] == (if old_current.len() == 0 {
                c
            } else {
                old_current[0]
            }));
        }
        current_bytes = current_bytes + w;
        i = i + 1;
    }
    if current.unicode_len() > 0 {
        let ghost before = views(chunks@);
        let ghost cur = current@;
        chunks.push(current);
        proof {
            assert(views(chunks@) =~= before.push(cur));
            assert(views(chunks@).drop_last() =~= before);
            assert forall|j: int| 0 <= j < chunks@.len() - 1 implies utf8_len(
                #[trigger] views(chunks@)[j],
            ) + char_width(views(chunks@)[j + 1][0]) > 1000 by {
                if j < before.len() - 1 {
                    assert(views(chunks@)[j] == before[j]);
                    assert(views(chunks@)[j + 1] == before[j + 1]);
                } else {
                    assert(views(chunks@)[j] == before.last());
                    assert(views(chunks@)[j + 1] == cur);
                }
            }
        }
    } else {
        proof {
            assert(concat_chunks(views(chunks@)) + current@ =~= concat_chunks(views(chunks@)));
        }
    }
    proof {
        assert(value@.take(cs.len() as int) =~= value@);
    }
    chunks
}

proof fn lemma_concat_chunks_first(a: Seq<Seq<char>>)
    requires
        a.len() > 0,
    ensures
        concat_chunks(a) == a[0] + concat_chunks(a.drop_first()),
    decreases a.len(),
{
    if a.len() == 1 {
        assert(a.drop_last() =~= Seq::<Seq<char>>::empty());
        assert(a.drop_first() =~= Seq::<Seq<char>>::empty());
        assert(concat_chunks(a) =~= a[0] + concat_chunks(a.drop_first()));
    } else {
        lemma_concat_chunks_first(a.drop_last());
        assert(a.drop_last().drop_first() =~= a.drop_first().drop_last());
        assert(a.drop_first().last() == a.last());
        assert(concat_chunks(a) =~= a[0] + concat_chunks(a.drop_first()));
    }
}

proof fn lemma_concat_nonempty(a: Seq<Seq<char>>)
    requires
        a.len() > 0,
        a.last().len() > 0,
    ensures
        concat_chunks(a).len() > 0,
{
}

proof fn lemma_utf8_len_prefix(s: Seq<char>, k: int)
    requires
        0 <= k <= s.len(),
    ensures
        utf8_len(s.take(k)) <= utf8_len(s),
{
    crate::text::lemma_encode_concat(s.take(k), s.skip(k));
    assert(s.take(k) + s.skip(k) =~= s);
}

proof fn lemma_chunking_rest(value: Seq<char>, a: Seq<Seq<char>>)
    requires
        is_chunking(value, a),
        a.len() > 0,
    ensures
        a[0].len() <= value.len(),
        value.take(a[0].len() as int) == a[0],
        is_chunking(value.skip(a[0].len() as int), a.drop_first()),
        concat_chunks(a) == a[0] + concat_chunks(a.drop_first()),
{
    lemma_concat_chunks_first(a);
    let x = a[0];
    let ra = a.drop_first();
    assert(value.take(x.len() as int) =~= x);
    assert(concat_chunks(ra) =~= value.skip(x.len() as int));
    assert forall|i: int| 0 <= i < ra.len() implies #[trigger] ra[i].len() > 0 && utf8_len(ra[i])
        <= 1000 by {
        assert(ra[i] == a[i + 1]);
    }
    assert forall|i: int| 0 <= i < ra.len() - 1 implies utf8_len(#[trigger] ra[i]) + char_width(
        ra[i + 1][0],
    ) > 1000 by {
        assert(ra[i] == a[i + 1]);
        assert(ra[i + 1] == a[i + 2]);
    }
}

proof fn lemma_chunking_empty(value: Seq<char>, a: Seq<Seq<char>>)
    requires
        is_chunking(value, a),
    ensures
        a.len() == 0 <==> value.len() == 0,
{
    if a.len() > 0 {
        assert(a[a.len() - 1].len() > 0);
        lemma_concat_nonempty(a);
    }
}

/// The greedy cut is the only one: two cuts of the same value that both satisfy
/// [`is_chunking`] are equal.
#[verifier::rlimit(100)]
#[verifier::spinoff_prover]
pub proof fn lemma_chunking_unique(value: Seq<char>, a: Seq<Seq<char>>, b: Seq<Seq<char>>)
    requires
        is_chunking(value, a),
        is_chunking(value, b),
    ensures
        a == b,
    decreases value.len(),
{
    lemma_chunking_empty(value, a);
    lemma_chunking_empty(value, b);
    if a.len() == 0 || b.len() == 0 {
        assert(a =~= b);
    } else {
        lemma_chunking_rest(value, a);
        lemma_chunking_rest(value, b);
        let x = a[0];
        let y = b[0];
        if x.len() < y.len() {
            lemma_not_shorter(value, a, y);
        }
        if y.len() < x.len() {
            lemma_not_shorter(value, b, x);
        }
        assert(x =~= y);
        lemma_chunking_unique(value.skip(x.len() as int), a.drop_first(), b.drop_first());
        assert(a =~= seq![x] + a.drop_first());
        assert(b =~= seq![y] + b.drop_first());
    }
}

/// In a greedy cut the first piece is not shorter than any prefix `y` of the value
/// that fits one entry.
proof fn lemma_not_shorter(value: Seq<char>, a: Seq<Seq<char>>, y: Seq<char>)
    requires
        is_chunking(value, a),
        a.len() > 0,
        value.take(y.len() as int) == y,
        y.len() <= value.len(),
        utf8_len(y) <= 1000,
        concat_chunks(a) == a[0] + concat_chunks(a.drop_first()),
    ensures
        a[0].len() >= y.len(),
{
    let x = a[0];
    if x.len() < y.len() {
        assert(x.len() > 0);
        // The value goes on after the first piece, so a second piece exists.
        if a.len() == 1 {
            assert(a.drop_first() =~= Seq::<Seq<char>>::empty());
            assert(concat_chunks(a.drop_first()) =~= Seq::<char>::empty());
            assert(value =~= x);
            assert(false);
        }
        let r = a.drop_first();
        lemma_concat_chunks_first(r);
        assert(r[0] == a[1]);
        assert(a[1].len() > 0);
        let c = a[1][0];
        assert(value[x.len() as int] == c);
        assert(y.take(x.len() as int) =~= x);
        assert(y.take(x.len() as int + 1) =~= x.push(c));
        lemma_utf8_len_push(x, c);
        lemma_utf8_len_prefix(y, x.len() as int + 1);
        assert(utf8_len(a[0]) + char_width(a[1][0]) > 1000);
        assert(false);
    }
}

// ---------------------------------------------------------------------------
// Entry names and the chunk marker
// ---------------------------------------------------------------------------

/// Name of the entry that holds a value, or the marker of its pieces.
pub open spec fn entry_username(prefix: Seq<char>, key: Seq<char>) -> Seq<char> {
    prefix + seq!['.'] + key
}

/// Name of the entry that holds piece number `index` (counting from one) of a value.
pub open spec fn chunk_username(prefix: Seq<char>, key: Seq<char>, index: nat) -> Seq<char> {
    prefix + seq!['.'] + key + seq!['_'] + decimal(index)
}

/// The text that marks an entry as standing for `count` pieces.
pub open spec fn chunk_marker(count: nat) -> Seq<char> {
    "CHUNKS:"@ + decimal(count)
}

/// `<prefix>.<key>`.
pub fn format_entry_username(prefix: &str, key: &str) -> (r: String)
    ensures
        r@ == entry_username(prefix@, key@),
{
    let mut s = String::from_str(prefix);
    push_char(&mut s, '.');
    s.append(key);
    s
}

/// `<prefix>.<key>_<index>`.
pub fn format_chunk_username(prefix: &str, key: &str, index: usize) -> (r: String)
    ensures
        r@ == chunk_username(prefix@, key@, index as nat),
{
    let mut s = format_entry_username(prefix, key);
    push_char(&mut s, '_');
    let digits = format_usize(index);
    s.append(digits.as_str());
    s
}

/// `CHUNKS:<count>`.
pub fn format_chunk_marker(count: usize) -> (r: String)
    ensures
        r@ == chunk_marker(count as nat),
{
    let digits = format_usize(count);
    concat2("CHUNKS:", digits.as_str())
}

/// What a main entry holds.
#[derive(Debug, PartialEq, Eq, Structural)]
pub enum StoredEntry {
    /// The value itself.
    Plain,
    /// The marker of a value cut into this many pieces.
    Chunked(usize),
    /// Text starting with `CHUNKS:` whose count does not parse.
    Corrupt,
}

/// How the text of a main entry is read: a marker when it starts with `CHUNKS:`
/// (with the rest parsed as `usize` the way `str::parse` does), the value otherwise.
pub open spec fn stored_entry_kind(text: Seq<char>) -> StoredEntry {
    if "CHUNKS:"@.is_prefix_of(text) {
        match parse_unsigned(text.skip(7), usize::MAX as nat) {
            Some(n) => StoredEntry::Chunked(n as usize),
            None => StoredEntry::Corrupt,
        }
    } else {
        StoredEntry::Plain
    }
}

/// Reads the text of a main entry (see [`stored_entry_kind`]).
pub fn classify_entry(text: &str) -> (r: StoredEntry)
    ensures
        r == stored_entry_kind(text@),
{
    proof {
        reveal_strlit("CHUNKS:");
    }
    if starts_with_text(text, "CHUNKS:") {
        let n = text.unicode_len();
        let rest = text.substring_char(7, n);
        assert(rest@ =~= text@.skip(7));
        match parse_usize(rest) {
            Some(count) => StoredEntry::Chunked(count),
            None => StoredEntry::Corrupt,
        }
    } else {
        StoredEntry::Plain
    }
}

/// The pieces of a value joined back together.
pub fn join_chunks(chunks: &Vec<String>) -> (r: String)
    ensures
        r@ == concat_chunks(views(chunks@)),
{
    let mut out = String::new();
    let mut i: usize = 0;
    while i < chunks.len()
        invariant
            i <= chunks@.len(),
            out@ == concat_chunks(views(chunks@).take(i as int)),
        decreases chunks.len() - i,
    {
        let ghost before = out@;
        out.append(chunks[i].as_str());
        proof {
            assert(views(chunks@).take(i + 1).drop_last() =~= views(chunks@).take(i as int));
        }
        i = i + 1;
    }
    assert(views(chunks@).take(i as int) =~= views(chunks@));
    out
}

// ---------------------------------------------------------------------------
// The entries written for one value
// ---------------------------------------------------------------------------

/// Which part of a stored value an entry holds.
#[derive(Debug, PartialEq, Eq, Structural)]
pub enum WritePart {
    /// The whole value.
    Whole,
    /// The marker `CHUNKS:<n>`.
    Marker,
    /// Piece number `index`, counting from one.
    Chunk(usize),
}

/// One keyring entry to write.
#[derive(Debug)]
pub struct KeyringWrite {
    pub username: String,
    pub secret: String,
    pub part: WritePart,
}

/// The (entry name, text) pair of a write.
pub open spec fn write_view(w: KeyringWrite) -> (Seq<char>, Seq<char>) {
    (w.username@, w.secret@)
}

/// The entries written, in order, to store `value` under `key`: the value itself when
/// it fits one entry, otherwise the marker followed by the greedy pieces.
pub open spec fn is_store_plan(
    prefix: Seq<char>,
    key: Seq<char>,
    value: Seq<char>,
    writes: Seq<(Seq<char>, Seq<char>)>,
) -> bool {
    if utf8_len(value) <= 1000 {
        writes == seq![(entry_username(prefix, key), value)]
    } else {
        exists|chunks: Seq<Seq<char>>|
            {
                &&& is_chunking(value, chunks)
                &&& chunks.len() <= usize::MAX
                &&& writes.len() == chunks.len() + 1
                &&& writes[0] == (entry_username(prefix, key), chunk_marker(chunks.len()))
                &&& forall|i: int|
                    0 <= i < chunks.len() ==> #[trigger] writes[i + 1] == (
                        chunk_username(prefix, key, (i + 1) as nat),
                        chunks[i],
                    )
            }
    }
}

/// Which part of `value` the planned write number `i` (counting from zero) holds: the
/// whole value or the marker first, then the pieces.
pub open spec fn planned_part(value: Seq<char>, i: int) -> WritePart {
    if i == 0 {
        if utf8_len(value) <= 1000 {
            WritePart::Whole
        } else {
            WritePart::Marker
        }
    } else {
        WritePart::Chunk(i as usize)
    }
}

/// The entries to write to store `value` under `key` (see [`is_store_plan`]).
pub fn plan_store(prefix: &str, key: &str, value: &str) -> (writes: Vec<KeyringWrite>)
    ensures
        is_store_plan(prefix@, key@, value@, writes@.map_values(|w: KeyringWrite| write_view(w))),
        writes@.len() > 0,
        forall|i: int| 0 <= i < writes@.len() ==> #[trigger] writes@[i].part == planned_part(value@, i),
{
    let mut writes: Vec<KeyringWrite> = Vec::new();
    let byte_len = utf8_byte_count(value);
    if byte_len <= SAFE_CHUNK_SIZE_BYTES as u128 {
        writes.push(
            KeyringWrite {
                username: format_entry_username(prefix, key),
                secret: String::from_str(value),
                part: WritePart::Whole,
            },
        );
        assert(writes@.map_values(|w: KeyringWrite| write_view(w)) =~= seq![
            (entry_username(prefix@, key@), value@),
        ]);
        return writes;
    }
    let chunks = split_into_chunks(value);
    let count = chunks.len();
    writes.push(
        KeyringWrite {
            username: format_entry_username(prefix, key),
            secret: format_chunk_marker(count),
            part: WritePart::Marker,
        },
    );
    let mut i: usize = 0;
    while i < count
        invariant
            count == chunks@.len(),
            i <= count,
            writes@.len() == i + 1,
            writes@[0].username@ == entry_username(prefix@, key@),
            writes@[0].secret@ == chunk_marker(count as nat),
            writes@[0].part == WritePart::Marker,
            forall|j: int|
                0 <= j < i ==> (#[trigger] writes@[j + 1]).username@ == chunk_username(
                    prefix@,
                    key@,
                    (j + 1) as nat,
                ) && writes@[j + 1].secret@ == chunks@[j]@ && writes@[j + 1].part
                    == WritePart::Chunk((j + 1) as usize),
        decreases count - i,
    {
        let index = i + 1;
        writes.push(
            KeyringWrite {
                username: format_chunk_username(prefix, key, index),
                secret: String::from_str(chunks[i].as_str()),
                part: WritePart::Chunk(index),
            },
        );
        i = i + 1;
    }
    proof {
        let ws = writes@.map_values(|w: KeyringWrite| write_view(w));
        let cv = views(chunks@);
        assert forall|j: int| 0 <= j < cv.len() implies #[trigger] ws[j + 1] == (
            chunk_username(prefix@, key@, (j + 1) as nat),
            cv[j],
        ) by {
            assert(writes@[j + 1].username@ == chunk_username(prefix@, key@, (j + 1) as nat));
        }
        assert(is_chunking(value@, cv));
        assert forall|j: int| 1 <= j < writes@.len() implies #[trigger] writes@[j].part
            == WritePart::Chunk(j as usize) by {
            assert(writes@[(j - 1) + 1].part == WritePart::Chunk(((j - 1) + 1) as usize));
        }
    }
    writes
}

/// A value has exactly one store plan: the entries written for it are determined by
/// the prefix, the key and the value.
pub proof fn lemma_store_plan_unique(
    prefix: Seq<char>,
    key: Seq<char>,
    value: Seq<char>,
    ws1: Seq<(Seq<char>, Seq<char>)>,
    ws2: Seq<(Seq<char>, Seq<char>)>,
)
    requires
        is_store_plan(prefix, key, value, ws1),
        is_store_plan(prefix, key, value, ws2),
    ensures
        ws1 == ws2,
{
    if utf8_len(value) > 1000 {
        let c1 = choose|chunks: Seq<Seq<char>>|
            {
                &&& is_chunking(value, chunks)
                &&& chunks.len() <= usize::MAX
                &&& ws1.len() == chunks.len() + 1
                &&& ws1[0] == (entry_username(prefix, key), chunk_marker(chunks.len()))
                &&& forall|i: int|
                    0 <= i < chunks.len() ==> #[trigger] ws1[i + 1] == (
                        chunk_username(prefix, key, (i + 1) as nat),
                        chunks[i],
                    )
            };
        let c2 = choose|chunks: Seq<Seq<char>>|
            {
                &&& is_chunking(value, chunks)
                &&& chunks.len() <= usize::MAX
                &&& ws2.len() == chunks.len() + 1
                &&& ws2[0] == (entry_username(prefix, key), chunk_marker(chunks.len()))
                &&& forall|i: int|
                    0 <= i < chunks.len() ==> #[trigger] ws2[i + 1] == (
                        chunk_username(prefix, key, (i + 1) as nat),
                        chunks[i],
                    )
            };
        lemma_chunking_unique(value, c1, c2);
        assert forall|i: int| 0 <= i < ws1.len() implies ws1[i] == ws2[i] by {
            if i > 0 {
                assert(ws1[(i - 1) + 1] == ws2[(i - 1) + 1]);
            }
        }
        assert(ws1 =~= ws2);
    }
}

/// Ten to the power `k`.
pub open spec fn pow10(k: nat) -> nat
    decreases k,
{
    if k == 0 {
        1
    } else {
        10 * pow10((k - 1) as nat)
    }
}

proof fn lemma_decimal_len(n: nat, k: nat)
    requires
        k >= 1,
        n < pow10(k),
    ensures
        decimal(n).len() <= k,
    decreases n,
{
    if n >= 10 {
        assert(k >= 2) by {
            if k == 1 {
                assert(pow10(1) == 10 * pow10(0));
            }
        }
        assert(pow10(k) == 10 * pow10((k - 1) as nat));
        lemma_decimal_len(n / 10, (k - 1) as nat);
    }
}

/// Every character is ASCII.
pub open spec fn all_ascii(s: Seq<char>) -> bool {
    forall|i: int| 0 <= i < s.len() ==> (#[trigger] s[i] as u32) < 128
}

proof fn lemma_ascii_utf8_len(s: Seq<char>)
    requires
        all_ascii(s),
    ensures
        utf8_len(s) == s.len(),
    decreases s.len(),
{
    if s.len() > 0 {
        assert(all_ascii(s.drop_first())) by {
            assert forall|i: int| 0 <= i < s.drop_first().len() implies (
            #[trigger] s.drop_first()[i] as u32) < 128 by {
                assert(s.drop_first()[i] == s[i + 1]);
            }
        }
        lemma_ascii_utf8_len(s.drop_first());
        assert((s[0] as u32) < 128);
        assert(vstd::utf8::encode_scalar(s[0] as u32).len() == 1);
    }
}

proof fn lemma_marker_fits(count: nat)
    requires
        count <= usize::MAX,
    ensures
        utf8_len(chunk_marker(count)) <= 1000,
{
    reveal_strlit("CHUNKS:");
    lemma_decimal_digits(count);
    assert(pow10(20) == 100000000000000000000nat) by {
        reveal_with_fuel(pow10, 21);
    }
    lemma_decimal_len(count, 20);
    let m = chunk_marker(count);
    assert forall|i: int| 0 <= i < m.len() implies (#[trigger] m[i] as u32) < 128 by {
        if i >= 7 {
            assert(m[i] == decimal(count)[i - 7]);
            assert(crate::text::is_digit(decimal(count)[i - 7]));
        }
    }
    lemma_ascii_utf8_len(m);
}

/// Every entry written to store a value fits the per-entry limit of
/// [`SAFE_CHUNK_SIZE_BYTES`] bytes.
pub proof fn lemma_store_plan_entries_fit(
    prefix: Seq<char>,
    key: Seq<char>,
    value: Seq<char>,
    writes: Seq<(Seq<char>, Seq<char>)>,
)
    requires
        is_store_plan(prefix, key, value, writes),
    ensures
        forall|i: int| 0 <= i < writes.len() ==> utf8_len(#[trigger] writes[i].1) <= 1000,
{
    if utf8_len(value) > 1000 {
        let chunks = choose|chunks: Seq<Seq<char>>|
            {
                &&& is_chunking(value, chunks)
                &&& chunks.len() <= usize::MAX
                &&& writes.len() == chunks.len() + 1
                &&& writes[0] == (entry_username(prefix, key), chunk_marker(chunks.len()))
                &&& forall|i: int|
                    0 <= i < chunks.len() ==> #[trigger] writes[i + 1] == (
                        chunk_username(prefix, key, (i + 1) as nat),
                        chunks[i],
                    )
            };
        lemma_marker_fits(chunks.len());
        assert forall|i: int| 0 <= i < writes.len() implies utf8_len(#[trigger] writes[i].1)
            <= 1000 by {
            if i > 0 {
                assert(writes[(i - 1) + 1] == (
                    chunk_username(prefix, key, i as nat),
                    chunks[i - 1],
                ));
            }
        }
    }
}

// ---------------------------------------------------------------------------
// Reading the entries back
// ---------------------------------------------------------------------------

/// The entries after writing `writes` in order over `m`.
pub open spec fn apply_writes(
    m: Map<Seq<char>, Seq<char>>,
    writes: Seq<(Seq<char>, Seq<char>)>,
) -> Map<Seq<char>, Seq<char>>
    decreases writes.len(),
{
    if writes.len() == 0 {
        m
    } else {
        apply_writes(m, writes.drop_last()).insert(writes.last().0, writes.last().1)
    }
}

/// The pieces `<prefix>.<key>_1` to `<prefix>.<key>_<count>` as held in `m`.
pub open spec fn stored_chunks(
    m: Map<Seq<char>, Seq<char>>,
    prefix: Seq<char>,
    key: Seq<char>,
    count: nat,
) -> Seq<Seq<char>> {
    Seq::new(count, |i: int| m[chunk_username(prefix, key, (i + 1) as nat)])
}

/// Why loading a value failed.
#[derive(Debug, PartialEq, Eq, Structural)]
pub enum LoadFailure {
    /// The main entry's handle could not be made.
    MainOpen,
    /// The main entry could not be read.
    MainMissing,
    /// The main entry holds a marker whose count does not parse.
    CorruptMarker,
    /// The handle of this piece could not be made.
    ChunkOpen(usize),
    /// This piece could not be read.
    ChunkMissing(usize),
}

/// The first of the pieces numbered `from` to `count` that has no entry in `m`.
pub open spec fn first_missing_chunk(
    m: Map<Seq<char>, Seq<char>>,
    prefix: Seq<char>,
    key: Seq<char>,
    from: nat,
    count: nat,
) -> Option<nat>
    decreases count + 1 - from,
{
    if from > count {
        None
    } else if !m.contains_key(chunk_username(prefix, key, from)) {
        Some(from)
    } else {
        first_missing_chunk(m, prefix, key, from + 1, count)
    }
}

/// What loading `key` from the entries `m` gives: the main entry's text when it is
/// not a marker; for a marker of `n` pieces, the pieces joined when all are there,
/// else the first missing piece; a missing main entry or a marker whose count does
/// not parse is a failure.
pub open spec fn load_outcome(
    m: Map<Seq<char>, Seq<char>>,
    prefix: Seq<char>,
    key: Seq<char>,
) -> Result<Seq<char>, LoadFailure> {
    let main = entry_username(prefix, key);
    if !m.contains_key(main) {
        Err(LoadFailure::MainMissing)
    } else {
        match stored_entry_kind(m[main]) {
            StoredEntry::Plain => Ok(m[main]),
            StoredEntry::Chunked(n) => match first_missing_chunk(m, prefix, key, 1, n as nat) {
                Some(i) => Err(LoadFailure::ChunkMissing(i as usize)),
                None => Ok(concat_chunks(stored_chunks(m, prefix, key, n as nat))),
            },
            StoredEntry::Corrupt => Err(LoadFailure::CorruptMarker),
        }
    }
}

/// With every piece from `from` to `count` present, none is missing.
proof fn lemma_no_missing_chunk(
    m: Map<Seq<char>, Seq<char>>,
    prefix: Seq<char>,
    key: Seq<char>,
    from: nat,
    count: nat,
)
    requires
        forall|i: nat| from <= i <= count ==> m.contains_key(#[trigger] chunk_username(prefix, key, i)),
    ensures
        first_missing_chunk(m, prefix, key, from, count) is None,
    decreases count + 1 - from,
{
    if from <= count {
        assert(m.contains_key(chunk_username(prefix, key, from)));
        lemma_no_missing_chunk(m, prefix, key, from + 1, count);
    }
}

/// A value that fits one entry but reads as a marker, which cannot round-trip.
pub open spec fn looks_like_marker(value: Seq<char>) -> bool {
    utf8_len(value) <= 1000 && "CHUNKS:"@.is_prefix_of(value)
}

/// After writing entries with distinct names, each name holds what was written to it.
pub proof fn lemma_apply_writes_distinct(
    m: Map<Seq<char>, Seq<char>>,
    writes: Seq<(Seq<char>, Seq<char>)>,
    j: int,
)
    requires
        0 <= j < writes.len(),
        forall|a: int, b: int|
            0 <= a < writes.len() && 0 <= b < writes.len() && a != b ==> #[trigger] writes[a].0
                != #[trigger] writes[b].0,
    ensures
        apply_writes(m, writes).contains_key(writes[j].0),
        apply_writes(m, writes)[writes[j].0] == writes[j].1,
    decreases writes.len(),
{
    if j < writes.len() - 1 {
        let shorter = writes.drop_last();
        assert forall|a: int, b: int|
            0 <= a < shorter.len() && 0 <= b < shorter.len() && a != b implies #[trigger] shorter[a].0
            != #[trigger] shorter[b].0 by {
            assert(shorter[a] == writes[a]);
            assert(shorter[b] == writes[b]);
        }
        lemma_apply_writes_distinct(m, shorter, j);
        assert(writes[j].0 != writes.last().0);
    }
}

proof fn lemma_chunk_usernames_distinct(prefix: Seq<char>, key: Seq<char>, a: nat, b: nat)
    ensures
        chunk_username(prefix, key, a) != entry_username(prefix, key),
        a != b ==> chunk_username(prefix, key, a) != chunk_username(prefix, key, b),
{
    lemma_decimal_digits(a);
    lemma_decimal_digits(b);
    let base = prefix + seq!['.'] + key + seq!['_'];
    assert(chunk_username(prefix, key, a).len() > entry_username(prefix, key).len());
    if a != b && chunk_username(prefix, key, a) == chunk_username(prefix, key, b) {
        assert(chunk_username(prefix, key, a) =~= base + decimal(a));
        assert(chunk_username(prefix, key, b) =~= base + decimal(b));
        assert((base + decimal(a)).skip(base.len() as int) =~= decimal(a));
        assert((base + decimal(b)).skip(base.len() as int) =~= decimal(b));
        lemma_decimal_injective(a, b);
    }
}

proof fn lemma_marker_kind(count: nat)
    requires
        count <= usize::MAX,
    ensures
        stored_entry_kind(chunk_marker(count)) == StoredEntry::Chunked(count as usize),
{
    reveal_strlit("CHUNKS:");
    let m = chunk_marker(count);
    assert(m.take(7) =~= "CHUNKS:"@);
    assert("CHUNKS:"@.is_prefix_of(m));
    assert(m.skip(7) =~= decimal(count));
    lemma_parse_format_usize(count as usize);
}

proof fn lemma_concat_chunks_ext(a: Seq<Seq<char>>, b: Seq<Seq<char>>)
    requires
        a =~= b,
    ensures
        concat_chunks(a) == concat_chunks(b),
{
}

/// Loading after storing gives the stored value back: whatever the entries held
/// before, once the entries planned for `value` are written, loading `key` gives
/// `value`, unless the value fits one entry and itself starts with `CHUNKS:`.
pub proof fn lemma_store_then_load(
    m: Map<Seq<char>, Seq<char>>,
    prefix: Seq<char>,
    key: Seq<char>,
    value: Seq<char>,
    writes: Seq<(Seq<char>, Seq<char>)>,
)
    requires
        is_store_plan(prefix, key, value, writes),
        !looks_like_marker(value),
    ensures
        load_outcome(apply_writes(m, writes), prefix, key) == Ok::<Seq<char>, LoadFailure>(value),
{
    let main = entry_username(prefix, key);
    if utf8_len(value) <= 1000 {
        assert(writes.drop_last() =~= Seq::<(Seq<char>, Seq<char>)>::empty());
        let after = apply_writes(m, writes);
        assert(apply_writes(m, writes.drop_last()) == m);
        assert(after == m.insert(main, value));
        assert(stored_entry_kind(value) == StoredEntry::Plain);
    } else {
        let chunks = choose|chunks: Seq<Seq<char>>|
            {
                &&& is_chunking(value, chunks)
                &&& chunks.len() <= usize::MAX
                &&& writes.len() == chunks.len() + 1
                &&& writes[0] == (entry_username(prefix, key), chunk_marker(chunks.len()))
                &&& forall|i: int|
                    0 <= i < chunks.len() ==> #[trigger] writes[i + 1] == (
                        chunk_username(prefix, key, (i + 1) as nat),
                        chunks[i],
                    )
            };
        let n = chunks.len();
        assert forall|a: int, b: int|
            0 <= a < writes.len() && 0 <= b < writes.len() && a != b implies #[trigger] writes[a].0
            != #[trigger] writes[b].0 by {
            if a == 0 {
                assert(writes[(b - 1) + 1] == (
                    chunk_username(prefix, key, b as nat),
                    chunks[b - 1],
                ));
                lemma_chunk_usernames_distinct(prefix, key, b as nat, b as nat);
            } else if b == 0 {
                assert(writes[(a - 1) + 1] == (
                    chunk_username(prefix, key, a as nat),
                    chunks[a - 1],
                ));
                lemma_chunk_usernames_distinct(prefix, key, a as nat, a as nat);
            } else {
                assert(writes[(a - 1) + 1] == (
                    chunk_username(prefix, key, a as nat),
                    chunks[a - 1],
                ));
                assert(writes[(b - 1) + 1] == (
                    chunk_username(prefix, key, b as nat),
                    chunks[b - 1],
                ));
                lemma_chunk_usernames_distinct(prefix, key, a as nat, b as nat);
            }
        }
        let after = apply_writes(m, writes);
        lemma_apply_writes_distinct(m, writes, 0);
        assert(after[main] == chunk_marker(n));
        lemma_marker_kind(n);
        assert forall|i: nat| 1 <= i <= n implies after.contains_key(
            #[trigger] chunk_username(prefix, key, i),
        ) by {
            assert(writes[(i - 1) + 1] == (chunk_username(prefix, key, i), chunks[i - 1]));
            lemma_apply_writes_distinct(m, writes, i as int);
        }
        assert forall|i: int| 0 <= i < n implies #[trigger] stored_chunks(
            after,
            prefix,
            key,
            n,
        )[i] == chunks[i] by {
            assert(writes[i + 1] == (chunk_username(prefix, key, (i + 1) as nat), chunks[i]));
            lemma_apply_writes_distinct(m, writes, i + 1);
        }
        assert(stored_chunks(after, prefix, key, n) =~= chunks);
        lemma_concat_chunks_ext(stored_chunks(after, prefix, key, n), chunks);
        lemma_no_missing_chunk(after, prefix, key, 1, n);
    }
}

} // verus!
