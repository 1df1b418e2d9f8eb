//! Trigram extraction: the 3-byte windows of a byte string, packed into `u32` keys.

use std::collections::HashSet;
use vstd::prelude::*;
use vstd::std_specs::iter::IteratorSpec;

use vstd::utf8::encode_utf8;

use crate::crawler::RawFile;
use crate::text::{
    all_ascii, ascii_string, bytes_as_chars, hex_digit, hex_digits, padded_hex, padded_hex_bytes,
};

verus! {

/// The key of the trigram `(a, b, c)`: the three bytes read as a big-endian
/// 24-bit number.
pub open spec fn trigram_key(a: u8, b: u8, c: u8) -> u32 {
    (a as int * 65536 + b as int * 256 + c as int) as u32
}

/// Pack 3 bytes into a u32 trigram key (the low 24 bits; the high 8 bits stay zero).
pub fn pack_trigram(a: u8, b: u8, c: u8) -> (t: u32)
    ensures
        t == trigram_key(a, b, c),
        t < 0x100_0000,
{
    let t = ((a as u32) << 16) | ((b as u32) << 8) | (c as u32);
    assert(((a as u32) << 16) | ((b as u32) << 8) | (c as u32) == a as u32 * 65536 + b as u32
        * 256 + c as u32) by (bit_vector);
    t
}

/// The three bytes of a trigram key, most significant first.
pub open spec fn trigram_bytes(t: u32) -> Seq<u8> {
    seq![(t / 65536 % 256) as u8, (t / 256 % 256) as u8, (t % 256) as u8]
}

/// Unpack a u32 trigram key back to its 3 bytes.
pub fn unpack_trigram(t: u32) -> (bytes: [u8; 3])
    ensures
        bytes@ == trigram_bytes(t),
{
    let b0 = ((t >> 16) & 0xFF) as u8;
    let b1 = ((t >> 8) & 0xFF) as u8;
    let b2 = (t & 0xFF) as u8;
    assert((t >> 16) & 0xFF == t / 65536 % 256) by (bit_vector);
    assert((t >> 8) & 0xFF == t / 256 % 256) by (bit_vector);
    assert(t & 0xFF == t % 256) by (bit_vector);
    let bytes = [b0, b1, b2];
    assert(bytes@ =~= trigram_bytes(t));
    bytes
}

/// Unpacking a packed trigram gives back its three bytes.
pub proof fn lemma_unpack_pack(a: u8, b: u8, c: u8)
    ensures
        trigram_bytes(trigram_key(a, b, c)) == seq![a, b, c],
{
    let t = trigram_key(a, b, c);
    assert(t == a as int * 65536 + b as int * 256 + c as int);
    assert(trigram_bytes(t) =~= seq![a, b, c]);
}

/// Packing the bytes of a 24-bit key gives back the key.
pub proof fn lemma_pack_unpack(t: u32)
    requires
        t < 0x100_0000,
    ensures
        trigram_key(trigram_bytes(t)[0], trigram_bytes(t)[1], trigram_bytes(t)[2]) == t,
{
}


/// The key of the trigram that starts at position `i` of `s`.
pub open spec fn window_key(s: Seq<u8>, i: int) -> u32 {
    trigram_key(s[i], s[i + 1], s[i + 2])
}

/// The keys of all trigrams (3-byte windows) of `s`.
pub open spec fn trigram_set(s: Seq<u8>) -> Set<u32> {
    Set::new(|t: u32| exists|i: int| 0 <= i && i + 3 <= s.len() && #[trigger] window_key(s, i) == t)
}

/// Every trigram key is below 2^24: it is three bytes.
pub proof fn lemma_trigram_keys_small(s: Seq<u8>)
    ensures
        forall|t: u32| #[trigger] trigram_set(s).contains(t) ==> t < 0x100_0000,
{
    assert forall|t: u32| #[trigger] trigram_set(s).contains(t) implies t < 0x100_0000 by {
        let i = choose|i: int| 0 <= i && i + 3 <= s.len() && #[trigger] window_key(s, i) == t;
        assert((s[i] as int) * 65536 + (s[i + 1] as int) * 256 + (s[i + 2] as int) < 0x100_0000);
    }
}

/// Every element is smaller than the ones after it (sorted, no repeats).
pub open spec fn strictly_ascending(s: Seq<u32>) -> bool {
    forall|i: int, j: int| 0 <= i < j < s.len() ==> s[i] < s[j]
}

/// `list` is the sorted list of the distinct trigram keys of `s`.
pub open spec fn is_trigram_list(list: Seq<u32>, s: Seq<u8>) -> bool {
    &&& strictly_ascending(list)
    &&& list.to_set() == trigram_set(s)
}

/// std's `slice::sort_unstable` on a vector of `u32`: its documentation promises that
/// afterwards the slice holds the same elements, in ascending order.
#[verifier::external_body]
pub(crate) fn sort_ascending(v: &mut Vec<u32>)
    ensures
        final(v)@.to_multiset() == old(v)@.to_multiset(),
        forall|i: int, j: int| 0 <= i <= j < final(v)@.len() ==> final(v)@[i] <= final(v)@[j],
{
    v.sort_unstable();
}

/// A sorted sequence without repeats is strictly ascending.
pub(crate) proof fn lemma_sorted_distinct_ascending(s: Seq<u32>)
    requires
        s.no_duplicates(),
        forall|i: int, j: int| 0 <= i <= j < s.len() ==> s[i] <= s[j],
    ensures
        strictly_ascending(s),
{
    assert forall|i: int, j: int| 0 <= i < j < s.len() implies s[i] < s[j] by {
        assert(s[i] <= s[j]);
        assert(s[i] != s[j]);
    }
}

/// Sorting a sequence without repeats keeps it without repeats, and keeps its elements.
pub(crate) proof fn lemma_permutation_distinct(a: Seq<u32>, b: Seq<u32>)
    requires
        a.no_duplicates(),
        a.to_multiset() == b.to_multiset(),
    ensures
        b.no_duplicates(),
        a.to_set() == b.to_set(),
{
    broadcast use vstd::seq_lib::group_to_multiset_ensures;
    a.lemma_multiset_has_no_duplicates();
    b.lemma_multiset_has_no_duplicates_conv();
    assert forall|x: u32| a.to_set().contains(x) <==> b.to_set().contains(x) by {
        assert(a.contains(x) <==> a.to_multiset().count(x) > 0);
        assert(b.contains(x) <==> b.to_multiset().count(x) > 0);
    }
    assert(a.to_set() =~= b.to_set());
}

/// Extract all unique trigrams from a byte slice, sorted ascending.
pub fn extract_trigrams(content: &[u8]) -> (trigrams: Vec<u32>)
    ensures
        is_trigram_list(trigrams@, content@),
        forall|i: int| 0 <= i < trigrams@.len() ==> #[trigger] trigrams@[i] < 0x100_0000,
{
    proof {
        lemma_trigram_keys_small(content@);
    }
    if content.len() < 3 {
        proof {
            assert(trigram_set(content@) =~= Set::empty());
            assert(Seq::<u32>::empty().to_set() =~= Set::empty());
        }
        return Vec::new();
    }
    broadcast use vstd::std_specs::hash::group_hash_axioms;

    let quarter = content.len() / 4;
    let capacity = if quarter < 65536 { quarter } else { 65536 };
    // std's default hasher: vstd's specification of `HashSet` holds for the hashers it
    // knows to be valid, and the hasher only affects speed here.
    let mut seen: HashSet<u32> = HashSet::with_capacity(capacity);

    let mut i: usize = 0;
    while i + 2 < content.len()
        invariant
            i + 2 <= content.len(),
            seen@ == Set::new(|t: u32| exists|j: int| 0 <= j < i && #[trigger] window_key(content@, j) == t),
        decreases content.len() - i,
    {
        let t = pack_trigram(content[i], content[i + 1], content[i + 2]);
        seen.insert(t);
        proof {
            assert(t == window_key(content@, i as int));
            assert(seen@ =~= Set::new(|t: u32| exists|j: int| 0 <= j < i + 1 && #[trigger] window_key(content@, j) == t));
        }
        i = i + 1;
    }
    assert(seen@ =~= trigram_set(content@));

    let ghost keys = vstd::std_specs::hash::spec_hash_keys_iter(&seen).remaining().unref();
    let mut result: Vec<u32> = Vec::new();
    for t in it: seen.iter()
        invariant
            it.seq().unref() == keys,
            result@ == keys.take(it.index()),
    {
        result.push(*t);
        proof {
            assert(keys.take(it.index() + 1) =~= keys.take(it.index()).push(*t));
        }
    }
    proof {
        assert(result@ =~= keys);
        assert(keys.no_duplicates());
        assert(keys.to_set() =~= seen@);
    }
    let ghost unsorted = result@;
    sort_ascending(&mut result);
    proof {
        lemma_permutation_distinct(unsorted, result@);
        lemma_sorted_distinct_ascending(result@);
        assert forall|i: int| 0 <= i < result@.len() implies #[trigger] result@[i] < 0x100_0000 by {
            assert(result@.to_set().contains(result@[i]));
        }
    }
    result
}

/// A file with its extracted trigrams, ready to be inserted into the index.
pub struct TrigramFile {
    pub path: String,
    /// Sorted, deduplicated list of trigram IDs present in this file.
    pub trigrams: Vec<u32>,
}

/// Extract trigrams from a batch of raw files, keeping their order.
pub fn extract_batch(files: Vec<RawFile>) -> (out: Vec<TrigramFile>)
    ensures
        out.len() == files.len(),
        forall|i: int|
            0 <= i < files.len() ==> {
                &&& #[trigger] out[i].path@ == files[i].path@
                &&& is_trigram_list(out[i].trigrams@, files[i].content@)
            },
{
    let ghost incoming = files@;
    let mut out: Vec<TrigramFile> = Vec::new();
    for file in it: files
        invariant
            it.seq() == incoming,
            out.len() == it.index(),
            forall|k: int|
                0 <= k < out.len() ==> {
                    &&& #[trigger] out[k].path@ == incoming[k].path@
                    &&& is_trigram_list(out[k].trigrams@, incoming[k].content@)
                },
    {
        let trigrams = extract_trigrams(file.content.as_slice());
        out.push(TrigramFile { path: file.path, trigrams });
    }
    out
}

/// Extract trigrams from a query string for lookup: the same trigrams as a file whose
/// content is the query's UTF-8 bytes.
pub fn query_trigrams(query: &str) -> (trigrams: Vec<u32>)
    ensures
        is_trigram_list(trigrams@, encode_utf8(query@)),
{
    extract_trigrams(query.as_bytes())
}

/// A byte that shows as itself: printable ASCII, space to tilde.
pub open spec fn is_printable(b: u8) -> bool {
    32 <= b < 127
}

/// What `trigram_display` shows: the trigram's three bytes when all are printable
/// ASCII, and otherwise the key in lowercase hexadecimal, zero-padded to six digits.
pub open spec fn trigram_text(t: u32) -> Seq<char> {
    let b = trigram_bytes(t);
    if is_printable(b[0]) && is_printable(b[1]) && is_printable(b[2]) {
        bytes_as_chars(b)
    } else {
        bytes_as_chars(padded_hex(t as nat, 6))
    }
}

/// Display a trigram as a string (for debugging).
pub fn trigram_display(t: u32) -> (text: String)
    ensures
        text@ == trigram_text(t),
{
    let bytes = unpack_trigram(t);
    if bytes[0] >= 32 && bytes[0] < 127 && bytes[1] >= 32 && bytes[1] < 127 && bytes[2] >= 32
        && bytes[2] < 127 {
        assert(all_ascii(bytes@));
        ascii_string(&bytes)
    } else {
        let hex = padded_hex_bytes(t, 6);
        proof {
            crate::text::lemma_hex_digits_ascii(t as nat);
            let digits = crate::text::hex_digits(t as nat);
            if digits.len() < 6 {
                let pad = Seq::new((6 - digits.len()) as nat, |i: int| 48u8);
                assert forall|i: int| 0 <= i < hex@.len() implies #[trigger] hex@[i] < 128 by {
                    if i >= pad.len() {
                        assert(hex@[i] == digits[i - pad.len()]);
                    }
                }
            }
        }
        ascii_string(hex.as_slice())
    }
}

/// Whether `c` is a lowercase hexadecimal digit.
pub open spec fn is_lower_hex(c: char) -> bool {
    ('0' <= c && c <= '9') || ('a' <= c && c <= 'f')
}

/// The number that a text of hexadecimal digits spells, most significant digit first.
pub open spec fn hex_text_value(s: Seq<char>) -> int
    decreases s.len(),
{
    if s.len() == 0 {
        0
    } else {
        hex_text_value(s.drop_last()) * 16 + (if '0' <= s.last() && s.last() <= '9' {
            s.last() as int - 48
        } else {
            s.last() as int - 87
        })
    }
}

/// Sixteen to the power `k`.
pub open spec fn pow16(k: nat) -> int
    decreases k,
{
    if k == 0 {
        1
    } else {
        16 * pow16((k - 1) as nat)
    }
}

/// The digit for `d` (below 16) is a lowercase hexadecimal digit worth `d`.
proof fn lemma_hex_digit_value(d: nat)
    requires
        d < 16,
    ensures
        is_lower_hex(hex_digit(d) as char),
        (if '0' <= (hex_digit(d) as char) && (hex_digit(d) as char) <= '9' {
            (hex_digit(d) as char) as int - 48
        } else {
            (hex_digit(d) as char) as int - 87
        }) == d,
{
}

/// The digits of `n` are lowercase hexadecimal and spell `n`; below `16^k` there are at
/// most `k` of them.
proof fn lemma_hex_digits_spell(n: nat, k: nat)
    ensures
        forall|i: int|
            0 <= i < hex_digits(n).len() ==> is_lower_hex(#[trigger] bytes_as_chars(hex_digits(n))[i]),
        hex_text_value(bytes_as_chars(hex_digits(n))) == n,
        1 <= k && n < pow16(k) ==> hex_digits(n).len() <= k,
    decreases n,
{
    let cs = bytes_as_chars(hex_digits(n));
    if n < 16 {
        assert(cs.drop_last() =~= Seq::<char>::empty());
        lemma_hex_digit_value(n);
        assert(cs.last() == hex_digit(n) as char);
        assert(hex_text_value(cs.drop_last()) == 0);
    } else {
        let q = n / 16;
        let r = n % 16;
        if k >= 2 && n < pow16(k) {
            assert(pow16(k) == 16 * pow16((k - 1) as nat));
            assert(q < pow16((k - 1) as nat)) by (nonlinear_arith)
                requires
                    q == n / 16,
                    n < 16 * pow16((k - 1) as nat),
            ;
        }
        if k == 1 && n < pow16(k) {
            assert(pow16(1) == 16 * pow16(0));
        }
        lemma_hex_digits_spell(q, (k - 1) as nat);
        let prev = bytes_as_chars(hex_digits(q));
        assert(cs.drop_last() =~= prev);
        lemma_hex_digit_value(r);
        assert(cs.last() == hex_digit(r) as char);
        assert(n == q * 16 + r);
        assert(cs.len() > 0);
        assert(hex_text_value(prev) == q);
        assert(hex_text_value(cs) == hex_text_value(cs.drop_last()) * 16 + (if '0' <= cs.last()
            && cs.last() <= '9' {
            cs.last() as int - 48
        } else {
            cs.last() as int - 87
        }));
        assert forall|i: int| 0 <= i < hex_digits(n).len() implies is_lower_hex(#[trigger] cs[i]) by {
            if i < prev.len() {
                assert(cs[i] == prev[i]);
            }
        }
    }
}

/// Zeros in front of hexadecimal digits do not change the number they spell.
proof fn lemma_leading_zeros(z: nat, s: Seq<char>)
    ensures
        hex_text_value(Seq::new(z, |i: int| '0') + s) == hex_text_value(s),
    decreases s.len(),
{
    let zs = Seq::new(z, |i: int| '0');
    if s.len() == 0 {
        assert(zs + s =~= zs);
        lemma_zeros_value(z);
    } else {
        lemma_leading_zeros(z, s.drop_last());
        assert((zs + s).drop_last() =~= zs + s.drop_last());
    }
}

/// A run of zeros spells zero.
proof fn lemma_zeros_value(z: nat)
    ensures
        hex_text_value(Seq::new(z, |i: int| '0')) == 0,
    decreases z,
{
    if z > 0 {
        lemma_zeros_value((z - 1) as nat);
        assert(Seq::new(z, |i: int| '0').drop_last() =~= Seq::new((z - 1) as nat, |i: int| '0'));
    }
}

/// How a trigram is displayed. When its three bytes are all printable ASCII (32 to 126),
/// the display is those three characters. When any byte, in any position, is not, the
/// display is six lowercase hexadecimal digits that spell the trigram's key.
pub proof fn lemma_display_of_trigram(a: u8, b: u8, c: u8)
    ensures
        (32 <= a < 127 && 32 <= b < 127 && 32 <= c < 127) ==> trigram_text(trigram_key(a, b, c))
            == seq![a as char, b as char, c as char],
        !(32 <= a < 127 && 32 <= b < 127 && 32 <= c < 127) ==> {
            let text = trigram_text(trigram_key(a, b, c));
            &&& text.len() == 6
            &&& forall|i: int| 0 <= i < 6 ==> is_lower_hex(#[trigger] text[i])
            &&& hex_text_value(text) == trigram_key(a, b, c)
        },
{
    let t = trigram_key(a, b, c);
    lemma_unpack_pack(a, b, c);
    if 32 <= a < 127 && 32 <= b < 127 && 32 <= c < 127 {
        assert(bytes_as_chars(seq![a, b, c]) =~= seq![a as char, b as char, c as char]);
    } else {
        let digits = hex_digits(t as nat);
        assert(t < pow16(6)) by {
            reveal_with_fuel(pow16, 7);
        }
        lemma_hex_digits_spell(t as nat, 6);
        let dc = bytes_as_chars(digits);
        let text = trigram_text(t);
        if digits.len() < 6 {
            let z = (6 - digits.len()) as nat;
            let pad = Seq::new(z, |i: int| 48u8);
            assert(bytes_as_chars(pad + digits) =~= Seq::new(z, |i: int| '0') + dc);
            lemma_leading_zeros(z, dc);
            assert(text == Seq::new(z, |i: int| '0') + dc);
            assert forall|i: int| 0 <= i < 6 implies is_lower_hex(#[trigger] text[i]) by {
                if i >= z {
                    assert(text[i] == dc[i - z]);
                }
            }
        }
    }
}

/// A display never mixes the two forms: a trigram shown as its three characters is shown
/// in three characters, and one shown in hexadecimal takes six.
pub proof fn lemma_display_lengths(a: u8, b: u8, c: u8)
    ensures
        trigram_text(trigram_key(a, b, c)).len() == 3 <==> (32 <= a < 127 && 32 <= b < 127 && 32
            <= c < 127),
{
    lemma_display_of_trigram(a, b, c);
}

} // verus!
