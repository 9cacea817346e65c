//! The tune cache: the ABC files of a collection concatenated into one file, each after an
//! eight-byte header of its tune ID and its length, and read back from it. Tune IDs come from
//! numerical file names such as "123.abc".

use vstd::prelude::*;
use vstd::utf8::{decode_utf8, encode_utf8, valid_utf8};
use crate::chars::{decimal_string, is_ascii_digit, law_decimal_round_trip, lemma_decimal_digits, parse_u32, parsed_u32, string_to_chars};
use std::collections::HashMap;

verus! {

/// A tune read from the cache file.
#[derive(Debug)]
pub struct CacheEntry {
    // ID of the tune.
    pub tune_id: u32,
    // Offset within file.
    pub offset: u64,
    // Length in bytes of the tune in the file.
    pub length: usize,
    // Text content of the tune.
    pub content: String,
}

/// A cache entry as values: tune ID, offset and length of its content, and its text.
pub open spec fn entry_view(e: CacheEntry) -> (u32, u64, usize, Seq<char>) {
    (e.tune_id, e.offset, e.length, e.content@)
}

/// Cache entries as values.
pub open spec fn entry_views(v: Seq<CacheEntry>) -> Seq<(u32, u64, usize, Seq<char>)> {
    v.map_values(|e: CacheEntry| entry_view(e))
}

/// The header stored before a tune: four bytes of its ID, then four of its length, each
/// little-endian. Only the low 32 bits of the length are stored.
pub open spec fn header_bytes(tune_id: u32, length: usize) -> Seq<u8> {
    seq![
        (tune_id & 0xFF) as u8,
        ((tune_id & 0xFF00) >> 8u32) as u8,
        ((tune_id & 0xFF0000) >> 16u32) as u8,
        ((tune_id & 0xFF000000) >> 24u32) as u8,
        (length & 0xFF) as u8,
        ((length & 0xFF00) >> 8usize) as u8,
        ((length & 0xFF0000) >> 16usize) as u8,
        ((length & 0xFF000000) >> 24usize) as u8,
    ]
}

/// The tune ID in a header.
pub open spec fn header_tune_id(h: Seq<u8>) -> u32 {
    (h[0] as u32) | ((h[1] as u32) << 8u32) | ((h[2] as u32) << 16u32) | ((h[3] as u32) << 24u32)
}

/// The content length in a header.
pub open spec fn header_length(h: Seq<u8>) -> usize {
    (h[4] as usize) | ((h[5] as usize) << 8usize) | ((h[6] as usize) << 16usize) | ((h[7] as usize)
        << 24usize)
}

/// The text of stored content: the characters it encodes where it is valid UTF-8, else
/// nothing.
pub open spec fn content_text(b: Seq<u8>) -> Seq<char> {
    if valid_utf8(b) {
        decode_utf8(b)
    } else {
        seq![]
    }
}

/// The entries of a cache file from offset `pos` on: each a header and then as many bytes of
/// content as it gives. Reading stops where a header or a content is cut short.
pub open spec fn cache_entries_from(bytes: Seq<u8>, pos: int) -> Seq<(u32, u64, usize, Seq<char>)>
    decreases bytes.len() - pos,
{
    if pos < 0 || pos + 8 > bytes.len() {
        seq![]
    } else {
        let h = bytes.subrange(pos, pos + 8);
        let start = pos + 8;
        let end = start + header_length(h);
        if end > bytes.len() {
            seq![]
        } else {
            seq![
                (header_tune_id(h), start as u64, header_length(h), content_text(
                    bytes.subrange(start, end),
                )),
            ] + cache_entries_from(bytes, end)
        }
    }
}

/// The entries of a cache file.
pub open spec fn cache_entries(bytes: Seq<u8>) -> Seq<(u32, u64, usize, Seq<char>)> {
    cache_entries_from(bytes, 0)
}

/// Calls `String::from_utf8`, which succeeds exactly where the bytes are valid UTF-8, and then
/// holds the characters that they encode.
#[verifier::external_body]
fn string_from_utf8(bytes: Vec<u8>) -> (r: Option<String>)
    ensures
        r is Some <==> valid_utf8(bytes@),
        r matches Some(s) ==> s@ == decode_utf8(bytes@),
{
    String::from_utf8(bytes).ok()
}

/// The header for a tune.
pub fn encode_header(tune_id: u32, length: usize) -> (r: Vec<u8>)
    ensures
        r@ == header_bytes(tune_id, length),
{
    let mut buf: Vec<u8> = Vec::new();
    buf.push((tune_id & 0x000000FF) as u8);
    buf.push(((tune_id & 0x0000FF00) >> 8) as u8);
    buf.push(((tune_id & 0x00FF0000) >> 16) as u8);
    buf.push(((tune_id & 0xFF000000) >> 24) as u8);
    buf.push((length & 0x000000FF) as u8);
    buf.push(((length & 0x0000FF00) >> 8) as u8);
    buf.push(((length & 0x00FF0000) >> 16) as u8);
    buf.push(((length & 0xFF000000) >> 24) as u8);
    assert(buf@ =~= header_bytes(tune_id, length));
    buf
}

/// Read the entry whose header starts at `pos`: the tune ID and length from the header, then
/// the content after it. There is none where the content is cut short; content that isn't
/// valid UTF-8 reads as an empty string.
fn read_cache_entry(bytes: &[u8], pos: usize) -> (r: Option<CacheEntry>)
    requires
        pos + 8 <= bytes@.len(),
    ensures
        ({
            let h = bytes@.subrange(pos as int, pos + 8);
            let end = pos + 8 + header_length(h);
            match r {
                None => end > bytes@.len(),
                Some(e) => end <= bytes@.len() && entry_view(e) == (
                    header_tune_id(h),
                    (pos + 8) as u64,
                    header_length(h),
                    content_text(bytes@.subrange(pos + 8, end)),
                ),
            }
        }),
{
    let ghost h = bytes@.subrange(pos as int, pos + 8);
    let tune_id: u32 = (bytes[pos] as u32) | (bytes[pos + 1] as u32) << 8 | (bytes[pos + 2] as u32)
        << 16 | (bytes[pos + 3] as u32) << 24;
    let length: usize = (bytes[pos + 4] as usize) | (bytes[pos + 5] as usize) << 8 | (bytes[pos
        + 6] as usize) << 16 | (bytes[pos + 7] as usize) << 24;
    assert(tune_id == header_tune_id(h));
    assert(length == header_length(h));
    let start = pos + 8;
    if length > bytes.len() - start {
        return None;
    }
    let end = start + length;
    let mut content_buf: Vec<u8> = Vec::new();
    let mut k: usize = start;
    while k < end
        invariant
            start <= k <= end <= bytes@.len(),
            content_buf@ == bytes@.subrange(start as int, k as int),
        decreases end - k,
    {
        content_buf.push(bytes[k]);
        k += 1;
        assert(content_buf@ =~= bytes@.subrange(start as int, k as int));
    }
    let content = match string_from_utf8(content_buf) {
        Some(content) => content,
        // E.g. encoding issues. Return an empty string rather than nothing, or reading
        // would stop.
        None => String::new(),
    };
    Some(CacheEntry { tune_id, offset: start as u64, length, content })
}

/// Read all the entries of a cache file, in order, up to one cut short.
pub fn read_cache(bytes: &[u8]) -> (r: Vec<CacheEntry>)
    ensures
        entry_views(r@) == cache_entries(bytes@),
{
    let mut entries: Vec<CacheEntry> = Vec::new();
    let mut pos: usize = 0;
    while bytes.len() - pos >= 8
        invariant
            pos <= bytes@.len(),
            entry_views(entries@) + cache_entries_from(bytes@, pos as int) == cache_entries(bytes@),
        decreases bytes@.len() - pos,
    {
        let ghost before = entry_views(entries@);
        match read_cache_entry(bytes, pos) {
            None => {
                assert(cache_entries_from(bytes@, pos as int) =~= Seq::<
                    (u32, u64, usize, Seq<char>),
                >::empty());
                assert(entry_views(entries@) + Seq::<(u32, u64, usize, Seq<char>)>::empty()
                    =~= entry_views(entries@));
                return entries;
            },
            Some(entry) => {
                let next = pos + 8 + entry.length;
                entries.push(entry);
                assert(entry_views(entries@) =~= before.push(entry_view(entry)));
                assert(before + cache_entries_from(bytes@, pos as int) =~= entry_views(entries@)
                    + cache_entries_from(bytes@, next as int));
                pos = next;
            },
        }
    }
    assert(cache_entries_from(bytes@, pos as int) =~= Seq::<(u32, u64, usize, Seq<char>)>::empty());
    assert(entry_views(entries@) + Seq::<(u32, u64, usize, Seq<char>)>::empty() =~= entry_views(
        entries@,
    ));
    entries
}

/// The text of a file name before its first dot.
pub open spec fn name_stem(s: Seq<char>) -> Seq<char> {
    if exists|k: int| 0 <= k < s.len() && s[k] == '.' {
        s.take(choose|k: int| 0 <= k < s.len() && s[k] == '.' && forall|j: int| 0 <= j < k ==> s[j] != '.')
    } else {
        s
    }
}

/// The tune ID of an ABC file from its file name: the number before the first dot.
pub fn tune_id_from_filename(file_name: &str) -> (r: Option<u32>)
    ensures
        r == parsed_u32(name_stem(file_name@)),
{
    let chars = string_to_chars(file_name);
    let mut k: usize = 0;
    while k < chars.len() && chars[k] != '.'
        invariant
            k <= chars@.len(),
            chars@ == file_name@,
            forall|j: int| 0 <= j < k ==> chars@[j] != '.',
        decreases chars@.len() - k,
    {
        k += 1;
    }
    let mut first: Vec<char> = Vec::new();
    let mut j: usize = 0;
    while j < k
        invariant
            j <= k <= chars@.len(),
            first@ == chars@.take(j as int),
        decreases k - j,
    {
        first.push(chars[j]);
        j += 1;
        assert(first@ =~= chars@.take(j as int));
    }
    proof {
        let s = file_name@;
        if k < chars@.len() {
            let w = choose|m: int| 0 <= m < s.len() && s[m] == '.' && forall|j: int| 0 <= j < m ==> s[j] != '.';
            assert(0 <= k < s.len() && s[k as int] == '.' && forall|j: int| 0 <= j < k ==> s[j] != '.');
            if w < k {
                assert(s[w] != '.');
            } else if w > k {
                assert(s[k as int] != '.');
            }
            assert(name_stem(s) == s.take(k as int));
        } else {
            assert(chars@.take(k as int) =~= s);
        }
    }
    parse_u32(first.as_slice())
}


/// Law: a header reads back the tune ID it was made from, and the length where it fits in 32
/// bits.
pub proof fn law_header_round_trip(tune_id: u32, length: usize)
    requires
        length <= u32::MAX,
    ensures
        header_tune_id(header_bytes(tune_id, length)) == tune_id,
        header_length(header_bytes(tune_id, length)) == length,
{
    assert((((tune_id & 0xFF) as u8) as u32) | (((((tune_id & 0xFF00) >> 8u32) as u8) as u32)
        << 8u32) | (((((tune_id & 0xFF0000) >> 16u32) as u8) as u32) << 16u32) | (((((tune_id
        & 0xFF000000) >> 24u32) as u8) as u32) << 24u32) == tune_id) by (bit_vector);
    assert((((length & 0xFF) as u8) as usize) | (((((length & 0xFF00) >> 8usize) as u8) as usize)
        << 8usize) | (((((length & 0xFF0000) >> 16usize) as u8) as usize) << 16usize) | (((((
    length & 0xFF000000) >> 24usize) as u8) as usize) << 24usize) == length) by (bit_vector)
        requires
            length <= 0xFFFF_FFFFusize,
    ;
}

/// The tunes that cache entries give, by ID; a later entry with an ID replaces an earlier one.
pub open spec fn entries_map(es: Seq<(u32, u64, usize, Seq<char>)>) -> Map<u32, Seq<char>>
    decreases es.len(),
{
    if es.len() == 0 {
        Map::empty()
    } else {
        entries_map(es.drop_last()).insert(es.last().0, es.last().3)
    }
}

/// The bytes of a cache file holding the tunes of `m` in the order `ids`: for each, its header
/// and its UTF-8 encoded text.
pub open spec fn cache_bytes(ids: Seq<u32>, m: Map<u32, Seq<char>>) -> Seq<u8>
    decreases ids.len(),
{
    if ids.len() == 0 {
        seq![]
    } else {
        cache_bytes(ids.drop_last(), m) + header_bytes(
            ids.last(),
            encode_utf8(m[ids.last()]).len() as usize,
        ) + encode_utf8(m[ids.last()])
    }
}

/// The tune IDs of map entries, in order.
pub open spec fn map_keys(s: Seq<(&u32, &String)>) -> Seq<u32> {
    s.map_values(|p: (&u32, &String)| *p.0)
}

/// ABC tunes held in memory by tune ID, as read from and written to the cache file.
pub struct ReadWriteCache {
    // Map of Tune ID to ABC String.
    string_cache: HashMap<u32, String>,
}

impl View for ReadWriteCache {
    type V = Map<u32, Seq<char>>;

    closed spec fn view(&self) -> Map<u32, Seq<char>> {
        self.string_cache@.map_values(|s: String| s@)
    }
}

impl ReadWriteCache {
    /// A cache holding the tunes of the entries, by ID; a later entry with an ID replaces an
    /// earlier one.
    pub fn from_entries(entries: Vec<CacheEntry>) -> (r: ReadWriteCache)
        ensures
            r@ == entries_map(entry_views(entries@)),
    {
        broadcast use vstd::std_specs::hash::group_hash_axioms;

        let ghost es = entry_views(entries@);
        let mut cache = ReadWriteCache { string_cache: HashMap::new() };
        assert(cache@ =~= entries_map(es.take(0)));
        for entry in it: entries
            invariant
                es == it.seq().map_values(|e: CacheEntry| entry_view(e)),
                cache@ == entries_map(es.take(it.index() as int)),
        {
            let ghost k = it.index() as int;
            let ghost before = cache@;
            cache.insert(entry.tune_id, entry.content);
            assert(es.take(k + 1).drop_last() =~= es.take(k));
            assert(es[k] == entry_view(entry));
        }
        assert(es.take(es.len() as int) =~= es);
        cache
    }

    /// Whether a tune is held.
    pub fn contains(&self, tune_id: u32) -> (r: bool)
        ensures
            r == self@.contains_key(tune_id),
    {
        broadcast use vstd::std_specs::hash::group_hash_axioms;

        self.string_cache.contains_key(&tune_id)
    }

    /// Hold a tune, replacing any held under its ID.
    pub fn insert(&mut self, tune_id: u32, content: String)
        ensures
            final(self)@ == old(self)@.insert(tune_id, content@),
    {
        broadcast use vstd::std_specs::hash::group_hash_axioms;

        let ghost c = content@;
        self.string_cache.insert(tune_id, content);
        assert(self@ =~= old(self)@.insert(tune_id, c));
    }

    /// The number of tunes held.
    pub fn len(&self) -> (r: usize)
        ensures
            r == self@.len(),
    {
        broadcast use vstd::std_specs::hash::group_hash_axioms;

        assert(self@.dom() =~= self.string_cache@.dom());
        self.string_cache.len()
    }

    /// The highest tune ID held, or 0 if none is.
    pub fn max_id(&self) -> (r: u32)
        ensures
            forall|k: u32| self@.contains_key(k) ==> k <= r,
            r == 0 || self@.contains_key(r),
    {
        broadcast use vstd::std_specs::hash::group_hash_axioms;

        let mut max: u32 = 0;
        let ghost dom = self.string_cache@.dom();
        for tune_id in it: self.string_cache.keys()
            invariant
                it.seq().unref().to_set() == dom,
                dom == self.string_cache@.dom(),
                forall|j: int| 0 <= j < it.index() ==> *#[trigger] it.seq()[j] <= max,
                max == 0 || dom.contains(max),
                it.index() == it.seq().len() ==> forall|k: u32| #[trigger] dom.contains(k) ==> k <= max,
        {
            let ghost j = it.index() as int;
            assert(it.seq().unref()[j] == *tune_id);
            assert(it.seq().unref().to_set().contains(*tune_id));
            if *tune_id > max {
                max = *tune_id;
            }
            assert forall|k: u32| j + 1 == it.seq().len() && #[trigger] dom.contains(k) implies k
                <= max by {
                assert(it.seq().unref().to_set().contains(k));
                assert(exists|i: int| 0 <= i < it.seq().len() && *it.seq()[i] == k);
            }
        }
        proof {
            assert(self@.dom() =~= dom);
        }
        max
    }

    /// The tune held under an ID.
    pub fn get(&self, tune_id: u32) -> (r: Option<String>)
        ensures
            match r {
                Some(s) => self@.contains_key(tune_id) && s@ == self@[tune_id],
                None => !self@.contains_key(tune_id),
            },
    {
        broadcast use vstd::std_specs::hash::group_hash_axioms;

        match self.string_cache.get(&tune_id) {
            Some(val) => Some(val.clone()),
            None => None,
        }
    }

    /// The cache file holding the tunes, each once, in the order that the map yields them.
    pub fn to_bytes(&self) -> (r: Vec<u8>)
        ensures
            exists|ids: Seq<u32>|
                ids.no_duplicates() && ids.to_set() == self@.dom() && r@ == cache_bytes(
                    ids,
                    self@,
                ),
    {
        broadcast use vstd::std_specs::hash::group_hash_axioms;

        let mut buf: Vec<u8> = Vec::new();
        let ghost m = self@;
        if self.string_cache.len() == 0 {
            proof {
                assert(self.string_cache@.dom().len() == 0);
                assert(m.dom() =~= Set::<u32>::empty());
                assert(Seq::<u32>::empty().to_set() =~= m.dom());
                assert(buf@ =~= cache_bytes(Seq::<u32>::empty(), m));
            }
            return buf;
        }
        assert(m.dom() =~= self.string_cache@.dom());
        for entry in it: self.string_cache.iter()
            invariant
                m == self@,
                it.seq().len() == m.dom().len(),
                m.dom().len() > 0,
                it.seq().no_duplicates(),
                forall|k: int|
                    0 <= k < it.seq().len() ==> #[trigger] m.contains_key(*it.seq()[k].0) && m[*it.seq()[k].0]
                        == (*it.seq()[k].1)@,
                forall|t: u32|
                    #[trigger] m.contains_key(t) ==> exists|k: int|
                        0 <= k < it.seq().len() && *it.seq()[k].0 == t,
                buf@ == cache_bytes(map_keys(it.seq().take(it.index() as int)), m),
                it.index() == it.seq().len() ==> exists|ids: Seq<u32>|
                    ids.no_duplicates() && ids.to_set() == m.dom() && buf@ == cache_bytes(ids, m),
        {
            let (tune_id, value) = entry;
            let ghost k = it.index() as int;
            let ghost before = buf@;
            let string_buf = value.as_str().as_bytes();
            let length = string_buf.len();
            let header = encode_header(*tune_id, length);
            let mut h: usize = 0;
            while h < header.len()
                invariant
                    h <= header@.len(),
                    buf@ == before + header@.take(h as int),
                decreases header@.len() - h,
            {
                buf.push(header[h]);
                h += 1;
                assert(buf@ =~= before + header@.take(h as int));
            }
            let mut b: usize = 0;
            while b < length
                invariant
                    b <= length == string_buf@.len(),
                    buf@ == before + header@ + string_buf@.take(b as int),
                decreases length - b,
            {
                buf.push(string_buf[b]);
                b += 1;
                assert(buf@ =~= before + header@ + string_buf@.take(b as int));
            }
            proof {
                assert(header@.take(header@.len() as int) =~= header@);
                assert(string_buf@.take(length as int) =~= string_buf@);
                let keys = map_keys(it.seq().take(k + 1));
                assert(keys.drop_last() =~= map_keys(it.seq().take(k)));
                assert(keys.last() == *tune_id);
                assert(m[*tune_id] == value@);
                assert(string_buf@ == encode_utf8(value@));
                assert(buf@ =~= cache_bytes(keys, m));
                let all = map_keys(it.seq());
                assert(it.seq().take(it.seq().len() as int) =~= it.seq());
                assert forall|x: int, y: int|
                    0 <= x < all.len() && 0 <= y < all.len() && x != y implies all[x] != all[y] by {
                    if all[x] == all[y] {
                        assert(it.seq()[x] == it.seq()[y]);
                    }
                }
                assert(all.no_duplicates());
                assert forall|t: u32| all.to_set().contains(t) <==> m.dom().contains(t) by {
                    if m.dom().contains(t) {
                        let w = choose|w: int| 0 <= w < it.seq().len() && *it.seq()[w].0 == t;
                        assert(all[w] == t);
                    }
                    if all.to_set().contains(t) {
                        let w = choose|w: int| 0 <= w < all.len() && all[w] == t;
                        assert(m.contains_key(*it.seq()[w].0));
                    }
                }
                assert(all.to_set() =~= m.dom());
                assert(k + 1 == it.seq().len() ==> keys == all);
            }
        }
        buf
    }
}


/// The tune IDs and texts of cache entries.
pub open spec fn entry_pairs(es: Seq<(u32, u64, usize, Seq<char>)>) -> Seq<(u32, Seq<char>)> {
    es.map_values(|e: (u32, u64, usize, Seq<char>)| (e.0, e.3))
}

/// The tune IDs and texts of the tunes of `m`, in the order `ids`.
pub open spec fn written_pairs(ids: Seq<u32>, m: Map<u32, Seq<char>>) -> Seq<(u32, Seq<char>)> {
    ids.map_values(|id: u32| (id, m[id]))
}

/// Every tune's UTF-8 encoding has a length that its header can hold.
pub open spec fn lengths_fit(m: Map<u32, Seq<char>>) -> bool {
    forall|id: u32| #[trigger] m.contains_key(id) ==> encode_utf8(m[id]).len() <= u32::MAX
}

proof fn lemma_parse_block(b: Seq<u8>, p: int, id: u32, text: Seq<char>)
    requires
        0 <= p,
        encode_utf8(text).len() <= u32::MAX,
        p + 8 + encode_utf8(text).len() <= b.len(),
        b.subrange(p, p + 8) == header_bytes(id, encode_utf8(text).len() as usize),
        b.subrange(p + 8, p + 8 + encode_utf8(text).len()) == encode_utf8(text),
    ensures
        entry_pairs(cache_entries_from(b, p)) == seq![(id, text)] + entry_pairs(
            cache_entries_from(b, p + 8 + encode_utf8(text).len()),
        ),
{
    broadcast use vstd::utf8::encode_utf8_valid_utf8, vstd::utf8::encode_utf8_decode_utf8;

    let len = encode_utf8(text).len() as usize;
    law_header_round_trip(id, len);
    let end = p + 8 + len;
    assert(content_text(b.subrange(p + 8, end)) == text);
    assert(cache_entries_from(b, p) == seq![(id, (p + 8) as u64, len, text)] + cache_entries_from(
        b,
        end,
    ));
    assert(entry_pairs(cache_entries_from(b, p)) =~= seq![(id, text)] + entry_pairs(
        cache_entries_from(b, end),
    ));
}

#[verifier::spinoff_prover]
#[verifier::rlimit(40)]
proof fn lemma_cache_bytes_parse(ids: Seq<u32>, m: Map<u32, Seq<char>>, rest: Seq<u8>)
    requires
        lengths_fit(m),
        forall|k: int| 0 <= k < ids.len() ==> m.contains_key(#[trigger] ids[k]),
    ensures
        entry_pairs(cache_entries_from(cache_bytes(ids, m) + rest, 0)) == written_pairs(ids, m)
            + entry_pairs(
            cache_entries_from(cache_bytes(ids, m) + rest, cache_bytes(ids, m).len() as int),
        ),
    decreases ids.len(),
{
    let b = cache_bytes(ids, m) + rest;
    if ids.len() == 0 {
        assert(written_pairs(ids, m) =~= Seq::<(u32, Seq<char>)>::empty());
        assert(entry_pairs(cache_entries_from(b, 0)) =~= written_pairs(ids, m) + entry_pairs(
            cache_entries_from(b, 0),
        ));
    } else {
        let front = ids.drop_last();
        let id = ids.last();
        let text = m[id];
        let enc = encode_utf8(text);
        let header = header_bytes(id, enc.len() as usize);
        let block = header + enc;
        let p = cache_bytes(front, m).len() as int;
        assert(m.contains_key(id));
        assert forall|k: int| 0 <= k < front.len() implies m.contains_key(#[trigger] front[k]) by {
            assert(front[k] == ids[k]);
        }
        assert(b =~= cache_bytes(front, m) + (block + rest));
        lemma_cache_bytes_parse(front, m, block + rest);
        assert(b.subrange(p, p + 8) =~= header);
        assert(b.subrange(p + 8, p + 8 + enc.len()) =~= enc);
        lemma_parse_block(b, p, id, text);
        assert(written_pairs(ids, m) =~= written_pairs(front, m) + seq![(id, text)]);
    }
}

proof fn lemma_entries_map_of_pairs(es: Seq<(u32, u64, usize, Seq<char>)>, ids: Seq<u32>, m: Map<u32, Seq<char>>)
    requires
        entry_pairs(es) == written_pairs(ids, m),
        ids.no_duplicates(),
        forall|k: int| 0 <= k < ids.len() ==> m.contains_key(#[trigger] ids[k]),
    ensures
        entries_map(es) == m.restrict(ids.to_set()),
    decreases es.len(),
{
    assert(entry_pairs(es).len() == es.len());
    assert(written_pairs(ids, m).len() == ids.len());
    if es.len() == 0 {
        assert(ids.to_set() =~= Set::<u32>::empty());
        assert(m.restrict(ids.to_set()) =~= Map::<u32, Seq<char>>::empty());
    } else {
        let front = ids.drop_last();
        assert forall|k: int| 0 <= k < front.len() implies #[trigger] entry_pairs(es.drop_last())[k]
            == written_pairs(front, m)[k] by {
            assert(entry_pairs(es)[k] == written_pairs(ids, m)[k]);
        }
        assert(entry_pairs(es.drop_last()) =~= written_pairs(front, m));
        assert forall|k: int| 0 <= k < front.len() implies m.contains_key(#[trigger] front[k]) by {
            assert(front[k] == ids[k]);
        }
        assert(front.no_duplicates());
        lemma_entries_map_of_pairs(es.drop_last(), front, m);
        assert(entry_pairs(es)[es.len() - 1] == written_pairs(ids, m)[ids.len() - 1]);
        assert forall|x: u32| #[trigger] ids.to_set().contains(x) <==> front.to_set().insert(
            ids.last(),
        ).contains(x) by {
            if ids.to_set().contains(x) {
                let k = choose|k: int| 0 <= k < ids.len() && ids[k] == x;
                if k < front.len() {
                    assert(front[k] == x);
                }
            }
            if front.to_set().contains(x) {
                let k = choose|k: int| 0 <= k < front.len() && front[k] == x;
                assert(ids[k] == x);
            }
            if x == ids.last() {
                assert(ids[ids.len() - 1] == x);
            }
        }
        assert(ids.to_set() =~= front.to_set().insert(ids.last()));
        assert(m.restrict(ids.to_set()) =~= m.restrict(front.to_set()).insert(ids.last(), m[ids.last()]));
    }
}

/// Law: the tunes written to a cache file read back as the same tunes under the same IDs,
/// where each tune's UTF-8 encoding is shorter than 2^32 bytes.
pub proof fn law_cache_round_trip(ids: Seq<u32>, m: Map<u32, Seq<char>>)
    requires
        ids.no_duplicates(),
        ids.to_set() == m.dom(),
        lengths_fit(m),
    ensures
        entries_map(cache_entries(cache_bytes(ids, m))) == m,
{
    let b = cache_bytes(ids, m);
    assert forall|k: int| 0 <= k < ids.len() implies m.contains_key(#[trigger] ids[k]) by {
        assert(ids.to_set().contains(ids[k]));
    }
    assert(b + Seq::<u8>::empty() =~= b);
    lemma_cache_bytes_parse(ids, m, Seq::<u8>::empty());
    assert(cache_entries_from(b, b.len() as int) =~= Seq::<(u32, u64, usize, Seq<char>)>::empty());
    assert(entry_pairs(cache_entries(b)) =~= written_pairs(ids, m));
    lemma_entries_map_of_pairs(cache_entries(b), ids, m);
    assert(m.restrict(ids.to_set()) =~= m);
}

/// Law: a tune file named by its ID in decimal, then `.abc`, gives back that ID.
pub proof fn law_file_name_round_trip(tune_id: u32)
    ensures
        parsed_u32(name_stem(decimal_string(tune_id as nat) + ".abc"@)) == Some(tune_id),
{
    reveal_strlit(".abc");
    law_decimal_round_trip(tune_id);
    lemma_decimal_digits(tune_id as nat);
    let d = decimal_string(tune_id as nat);
    let s = d + ".abc"@;
    assert(parsed_u32(d) == Some(tune_id));
    // The digits hold no dot, so the first dot is the one after them.
    assert forall|j: int| 0 <= j < d.len() implies s[j] != '.' by {
        assert(s[j] == d[j]);
        assert(is_ascii_digit(d[j]));
    }
    assert(s[d.len() as int] == '.');
    let k = choose|k: int| 0 <= k < s.len() && s[k] == '.' && forall|j: int| 0 <= j < k ==> s[j] != '.';
    if k < d.len() {
        assert(s[k] != '.');
    } else if k > d.len() {
        assert(s[d.len() as int] != '.');
    }
    assert(s.take(k) =~= d);
}

} // verus!
