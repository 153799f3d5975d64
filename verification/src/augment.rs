//! Mapping augmentation: copies thread stacks and a rebuilt DSO link map into
//! the mapping table so they can be emitted as `PT_LOAD` segments backed by
//! data captured in the minidump.
use std::collections::BTreeMap;

use vstd::prelude::*;
use vstd::string::StringSliceAdditionalSpecFns;

use crate::bytes::{
    from_le32, from_le64, le32, le64, lemma_from_le32_at, lemma_from_le32_sub, lemma_from_le64_at,
    lemma_from_le64_sub, push_all, push_u32, push_u64, push_zeros, read_u32, read_u64,
};
use crate::error::Md2CoreError;
use crate::model::{
    align_down, align_up, lemma_padding, padded_bytes, padded_vec, padding_for, repeat_byte,
    spec_align_up,
    Architecture, CrashedProcess, DsoDebug, LinkMapEntry, Mapping, MappingModel,
    MappingPermissions, ThreadSnapshot, DEFAULT_PAGE_SIZE,
};
use crate::notes::{word_bytes, word_fits};
use crate::ordered::{lemma_u64_keys_ordered, ordered_keys, strictly_increasing};

verus! {

/// Address of the synthetic page that hosts the rebuilt link map.
pub const LINK_MAP_ADDR: u64 = 4096;

// --- the mapping table -------------------------------------------------------

/// The models of the mappings of a table.
pub open spec fn table_models(m: Map<u64, Mapping>) -> Map<u64, MappingModel> {
    m.map_values(|x: Mapping| x@)
}

/// Whether `address` lies in the mapping.
pub open spec fn covers(x: MappingModel, address: u64) -> bool {
    x.start_address <= address && address < x.end_address
}

/// `k` is the smallest key whose mapping covers `address`.
pub open spec fn is_first_covering(m: Map<u64, MappingModel>, address: u64, k: u64) -> bool {
    &&& m.contains_key(k)
    &&& covers(m[k], address)
    &&& forall|j: u64| m.contains_key(j) && j < k ==> !covers(#[trigger] m[j], address)
}

/// The smallest key whose mapping covers `address`, if any.
pub open spec fn first_covering_key(m: Map<u64, MappingModel>, address: u64) -> Option<u64> {
    if exists|k: u64| is_first_covering(m, address, k) {
        Some(choose|k: u64| is_first_covering(m, address, k))
    } else {
        None
    }
}

/// The key of the first mapping, in key order, that contains `address`.
fn find_covering_key(mappings: &BTreeMap<u64, Mapping>, address: u64) -> (r: Option<u64>)
    ensures
        r == first_covering_key(table_models(mappings@), address),
{
    broadcast use vstd::std_specs::btree::group_btree_axioms;

    proof {
        lemma_u64_keys_ordered();
    }

    let ghost m = table_models(mappings@);
    let keys = ordered_keys(mappings);
    let mut i: usize = 0;
    while i < keys.len()
        invariant
            i <= keys@.len(),
            strictly_increasing(keys@),
            keys@.to_set() == mappings@.dom(),
            m == table_models(mappings@),
            forall|t: int| 0 <= t < i ==> !covers(#[trigger] m[keys@[t]], address),
        decreases keys@.len() - i,
    {
        let k = keys[i];
        assert(keys@.to_set().contains(k));
        let found = match mappings.get(&k) {
            Some(x) => x.contains(address),
            None => false,
        };
        if found {
            assert(is_first_covering(m, address, k)) by {
                assert forall|j: u64| m.contains_key(j) && j < k implies !covers(#[trigger] m[j], address) by {
                    assert(keys@.to_set().contains(j));
                    let t = choose|t: int| 0 <= t < keys@.len() && keys@[t] == j;
                    if t >= i {
                        if t > i {
                            assert(keys@[i as int] < keys@[t]);
                        }
                    }
                }
            }
            assert forall|k2: u64| is_first_covering(m, address, k2) implies k2 == k by {
                if k2 < k {
                } else if k < k2 {
                }
            }
            return Some(k);
        }
        i = i + 1;
    }
    assert forall|k: u64| !is_first_covering(m, address, k) by {
        if m.contains_key(k) {
            assert(keys@.to_set().contains(k));
            let t = choose|t: int| 0 <= t < keys@.len() && keys@[t] == k;
            assert(!covers(m[keys@[t]], address));
        }
    }
    None
}

// --- adding captured bytes -------------------------------------------------------

/// `address` rounded down to a multiple of `page_size` (non-zero).
pub open spec fn page_floor(address: u64, page_size: u64) -> u64 {
    (address - address % page_size) as u64
}

/// Whether adding data at `address` would subtract a larger key from the
/// page-aligned address while moving the offset of a file-backed mapping.
pub open spec fn add_data_underflows(
    m: Map<u64, MappingModel>,
    data: Seq<u8>,
    address: u64,
    page_size: u64,
) -> bool {
    let aligned = page_floor(address, page_size);
    let prefix = address - aligned;
    &&& page_size != 0
    &&& page_size <= usize::MAX
    &&& prefix + data.len() + padding_for(prefix + data.len(), page_size as int) <= usize::MAX
    &&& first_covering_key(m, address) matches Some(k) && m[k].filename is Some && aligned < k
}

/// The table and result of adding the bytes `data`, captured at `address`,
/// to the mapping table `m`.
///
/// The bytes are stored page-aligned: the mapping starts at `address`
/// rounded down to a page, and its data is zeros up to `address`, then
/// `data`, then zeros up to a page boundary. When a mapping covers
/// `address`, a copy of it starting at the aligned address takes the data
/// (its file offset moves with the start) and the covering mapping is cut
/// short at the aligned address; otherwise a new read/write anonymous mapping
/// spans the data's pages, and at least one page (empty data at a page
/// boundary gets an empty page).
#[verifier::opaque]
pub open spec fn add_data_spec(m: Map<u64, MappingModel>, data: Seq<u8>, address: u64, page_size: u64) -> (
    Map<u64, MappingModel>,
    Result<(), Md2CoreError>,
) {
    if page_size == 0 {
        (m, Err(Md2CoreError::InvalidAlignment))
    } else if page_size > usize::MAX {
        (m, Err(Md2CoreError::IntegerOverflow("page size usize")))
    } else {
        let aligned = page_floor(address, page_size);
        let prefix = (address - aligned) as nat;
        if prefix + data.len() + padding_for((prefix + data.len()) as int, page_size as int) > usize::MAX {
            (m, Err(Md2CoreError::IntegerOverflow("padded data length")))
        } else {
            let bytes = padded_bytes(prefix, data, page_size as nat);
            match first_covering_key(m, address) {
                Some(k) => {
                    let e = m[k];
                    let m1 = if aligned != k {
                        m.insert(
                            k,
                            MappingModel {
                                start_address: e.start_address,
                                end_address: aligned,
                                offset: e.offset,
                                permissions: e.permissions,
                                filename: e.filename,
                                data: e.data,
                            },
                        )
                    } else {
                        m
                    };
                    let shift = aligned != k && e.filename is Some;
                    if shift && e.offset + (aligned - k) > u64::MAX {
                        (m1, Err(Md2CoreError::IntegerOverflow("split mapping offset")))
                    } else {
                        let offset = if shift {
                            (e.offset + (aligned - k)) as u64
                        } else {
                            e.offset
                        };
                        (
                            m1.insert(
                                aligned,
                                MappingModel {
                                    start_address: aligned,
                                    end_address: e.end_address,
                                    offset,
                                    permissions: e.permissions,
                                    filename: e.filename,
                                    data: bytes,
                                },
                            ),
                            Ok(()),
                        )
                    }
                },
                None => {
                    let last = address + data.len();
                    if last > u64::MAX {
                        (m, Err(Md2CoreError::IntegerOverflow("synthetic mapping end")))
                    } else if spec_align_up(last, page_size as int) > u64::MAX {
                        (m, Err(Md2CoreError::IntegerOverflow("aligned value")))
                    } else {
                        let end = spec_align_up(last, page_size as int) as u64;
                        if aligned >= end && aligned + page_size > u64::MAX {
                            (m, Err(Md2CoreError::IntegerOverflow("synthetic mapping end")))
                        } else {
                            (
                                m.insert(
                                    aligned,
                                    MappingModel {
                                        start_address: aligned,
                                        end_address: if aligned >= end {
                                            (aligned + page_size) as u64
                                        } else {
                                            end
                                        },
                                        offset: 0,
                                        permissions: MappingPermissions::spec_new(true, true, false),
                                        filename: None,
                                        data: bytes,
                                    },
                                ),
                                Ok(()),
                            )
                        }
                    }
                },
            }
        }
    }
}

/// Adds a captured byte blob to the mapping table, splitting mappings as needed.
///
/// See [`add_data_spec`] for the table and result; the errors are
/// `InvalidAlignment` for a zero page size, and `IntegerOverflow` when a
/// length, the moved file offset or the new mapping's end does not fit.
pub fn add_data_to_mapping(
    mappings: &mut BTreeMap<u64, Mapping>,
    data: &[u8],
    address: u64,
    page_size: u64,
) -> (r: Result<(), Md2CoreError>)
    requires
        !add_data_underflows(table_models(old(mappings)@), data@, address, page_size),
    ensures
        (table_models(final(mappings)@), r) == add_data_spec(
            table_models(old(mappings)@),
            data@,
            address,
            page_size,
        ),
{
    broadcast use vstd::std_specs::btree::group_btree_axioms;

    proof {
        lemma_u64_keys_ordered();
        reveal(add_data_spec);
    }
    let ghost m0 = table_models(mappings@);
    let aligned = match align_down(address, page_size) {
        Ok(a) => a,
        Err(e) => {
            return Err(e);
        },
    };
    if page_size > usize::MAX as u64 {
        return Err(Md2CoreError::IntegerOverflow("page size usize"));
    }
    let page_size_usize = page_size as usize;
    let prefix_len = (address - aligned) as usize;
    let mapping_data = match padded_vec(prefix_len, data, page_size_usize) {
        Ok(v) => v,
        Err(e) => {
            return Err(e);
        },
    };
    let ghost bytes = mapping_data@;
    match find_covering_key(mappings, address) {
        Some(key) => {
            let mut data_mapping = match mappings.get(&key) {
                Some(x) => x.duplicate(),
                None => {
                    return Err(Md2CoreError::MissingField("mapping"));
                },
            };
            let ghost e = m0[key];
            assert(data_mapping@ == e);
            if aligned != key {
                let mut existing = match mappings.remove(&key) {
                    Some(x) => x,
                    None => {
                        return Err(Md2CoreError::MissingField("mapping"));
                    },
                };
                existing.end_address = aligned;
                mappings.insert(key, existing);
                assert(table_models(mappings@) =~= m0.insert(
                    key,
                    MappingModel {
                        start_address: e.start_address,
                        end_address: aligned,
                        offset: e.offset,
                        permissions: e.permissions,
                        filename: e.filename,
                        data: e.data,
                    },
                ));
                if data_mapping.filename.is_some() {
                    data_mapping.offset = match data_mapping.offset.checked_add(aligned - key) {
                        Some(x) => x,
                        None => {
                            return Err(Md2CoreError::IntegerOverflow("split mapping offset"));
                        },
                    };
                }
            }
            let ghost m1 = table_models(mappings@);
            data_mapping.start_address = aligned;
            data_mapping.data = mapping_data;
            mappings.insert(aligned, data_mapping);
            assert(table_models(mappings@) =~= m1.insert(aligned, data_mapping@));
            Ok(())
        },
        None => {
            let data_len = data.len() as u64;
            assert(data_len == data@.len());
            let last = match address.checked_add(data_len) {
                Some(x) => x,
                None => {
                    return Err(Md2CoreError::IntegerOverflow("synthetic mapping end"));
                },
            };
            let end = match align_up(last, page_size) {
                Ok(x) => x,
                Err(e) => {
                    return Err(e);
                },
            };
            let end = if aligned < end {
                end
            } else {
                match aligned.checked_add(page_size) {
                    Some(x) => x,
                    None => {
                        return Err(Md2CoreError::IntegerOverflow("synthetic mapping end"));
                    },
                }
            };
            let mut mapping = match Mapping::new(aligned, end, MappingPermissions::read_write()) {
                Ok(x) => x,
                Err(e) => {
                    return Err(e);
                },
            };
            mapping.data = mapping_data;
            mappings.insert(aligned, mapping);
            assert(table_models(mappings@) =~= m0.insert(aligned, mapping@));
            Ok(())
        },
    }
}

/// After data is added successfully, the mapping at the page-aligned address
/// holds the data at the address's offset within its first page, and its
/// bytes fill whole pages.
pub proof fn lemma_added_data_page_aligned(
    m: Map<u64, MappingModel>,
    data: Seq<u8>,
    address: u64,
    page_size: u64,
)
    requires
        add_data_spec(m, data, address, page_size).1 is Ok,
    ensures
        ({
            let t = add_data_spec(m, data, address, page_size).0;
            let aligned = page_floor(address, page_size);
            let prefix = address - aligned;
            &&& t.contains_key(aligned)
            &&& t[aligned].start_address == aligned
            &&& (t[aligned].data.len() as int) % (page_size as int) == 0
            &&& t[aligned].data.subrange(prefix, prefix + data.len()) == data
        }),
{
    reveal(add_data_spec);
    assert(page_size > 0);
    assert(address % page_size <= address) by (nonlinear_arith)
        requires
            page_size > 0,
    ;
    let aligned = page_floor(address, page_size);
    let prefix = (address - aligned) as nat;
    lemma_padding((prefix + data.len()) as int, page_size as int);
    let bytes = padded_bytes(prefix, data, page_size as nat);
    assert(bytes.subrange(prefix as int, (prefix + data.len()) as int) =~= data);
    assert(bytes.len() == prefix + data.len() + padding_for((prefix + data.len()) as int, page_size as int));
    let t = add_data_spec(m, data, address, page_size).0;
    assert(t.contains_key(aligned) && t[aligned].data == bytes && t[aligned].start_address == aligned);
    assert(address - aligned == prefix);
    assert(t[aligned].data.subrange(address - aligned, address - aligned + data.len()) == data);
}

/// Adding data where a mapping covers the address: a mapping from the
/// page-aligned address takes over the rest of the covering mapping (its
/// end, permissions and file, its file offset moved forward by the distance
/// from the covering mapping's start when it is file-backed), the covering
/// mapping ends at the aligned address when it starts below it, and every
/// other mapping stays. Where none covers it, a new read/write anonymous
/// mapping starts at the aligned address and ends on a page boundary at or
/// after the data.
pub proof fn lemma_add_data_placement(
    m: Map<u64, MappingModel>,
    data: Seq<u8>,
    address: u64,
    page_size: u64,
)
    requires
        add_data_spec(m, data, address, page_size).1 is Ok,
    ensures
        ({
            let t = add_data_spec(m, data, address, page_size).0;
            let aligned = page_floor(address, page_size);
            &&& t.contains_key(aligned)
            &&& t[aligned].start_address == aligned
            &&& forall|j: u64|
                #![trigger t.contains_key(j)]
                m.contains_key(j) && j != aligned && first_covering_key(m, address) != Some(j)
                    ==> t.contains_key(j) && t[j] == m[j]
            &&& match first_covering_key(m, address) {
                Some(k) => {
                    let e = m[k];
                    &&& t[aligned].end_address == e.end_address
                    &&& t[aligned].permissions == e.permissions
                    &&& t[aligned].filename == e.filename
                    &&& k <= aligned && e.filename is Some ==> t[aligned].offset == e.offset + (
                    aligned - k)
                    &&& aligned == k || e.filename is None ==> t[aligned].offset == e.offset
                    &&& aligned != k ==> t.contains_key(k) && t[k].end_address == aligned
                        && t[k].start_address == e.start_address && t[k].offset == e.offset
                        && t[k].permissions == e.permissions && t[k].filename == e.filename
                },
                None => {
                    &&& t[aligned].filename is None
                    &&& t[aligned].offset == 0
                    &&& t[aligned].permissions == MappingPermissions::spec_new(true, true, false)
                    &&& t[aligned].end_address > aligned
                    &&& (t[aligned].end_address as int) % (page_size as int) == 0
                    &&& t[aligned].end_address >= address + data.len()
                },
            }
        }),
{
    reveal(add_data_spec);
    let aligned = page_floor(address, page_size);
    assert(page_size > 0);
    assert(address % page_size <= address) by (nonlinear_arith)
        requires
            page_size > 0,
    ;
    if first_covering_key(m, address) is None {
        let last = address + data.len();
        let end = spec_align_up(last, page_size as int);
        assert(end % (page_size as int) == 0 && end >= last) by (nonlinear_arith)
            requires
                end == (if last % (page_size as int) == 0 {
                    last
                } else {
                    last + (page_size as int - last % (page_size as int))
                }),
                page_size > 0,
        ;
        assert((aligned as int) % (page_size as int) == 0) by (nonlinear_arith)
            requires
                aligned == address - address % page_size,
                page_size > 0,
        ;
        if aligned >= end {
            assert(((aligned + page_size) as int) % (page_size as int) == 0) by (nonlinear_arith)
                requires
                    (aligned as int) % (page_size as int) == 0,
                    page_size > 0,
            ;
        }
    }
}

// --- the rebuilt link map -----------------------------------------------------

/// A sequence of words, each `word` bytes little-endian.
pub open spec fn words_bytes(ws: Seq<u64>, word: usize) -> Seq<u8>
    decreases ws.len(),
{
    if ws.len() == 0 {
        Seq::empty()
    } else {
        words_bytes(ws.drop_last(), word) + word_bytes(ws.last(), word)
    }
}

/// Every word fits in `word` bytes.
pub open spec fn words_fit(ws: Seq<u64>, word: usize) -> bool {
    forall|k: int| 0 <= k < ws.len() ==> word_fits(#[trigger] ws[k], word)
}

/// The name recorded for a link-map entry, as UTF-8: the signature override
/// registered for its load address, else its own name.
pub open spec fn entry_name(e: LinkMapEntry, sig: Map<u64, String>) -> Seq<u8> {
    if sig.contains_key(e.addr) {
        vstd::utf8::encode_utf8(sig[e.addr]@)
    } else {
        vstd::utf8::encode_utf8(e.name@)
    }
}

/// The names of the entries.
pub open spec fn entry_names(es: Seq<LinkMapEntry>, sig: Map<u64, String>) -> Seq<Seq<u8>> {
    es.map_values(|e: LinkMapEntry| entry_name(e, sig))
}

/// A name followed by 1 to 8 zero bytes, ending on a multiple of 8.
pub open spec fn name_block(name: Seq<u8>) -> Seq<u8> {
    name + repeat_byte(0, (8 - name.len() % 8) as nat)
}

/// Size of `r_debug` on the target.
pub open spec fn r_debug_size(word: usize) -> nat {
    if word == 8 {
        40
    } else {
        20
    }
}

/// Offset within the blob of the `i`-th `link_map` record: `r_debug`, then
/// each earlier record followed by its name block.
pub open spec fn record_offset(names: Seq<Seq<u8>>, word: usize, i: int) -> nat
    decreases i,
{
    if i <= 0 {
        r_debug_size(word)
    } else {
        (record_offset(names, word, i - 1) + 5 * word + name_block(names[i - 1]).len()) as nat
    }
}

/// The words of `r_debug`: version, address of the first record (0 when
/// there is none), `r_brk`, `r_state` (0, consistent) and `r_ldbase`.
pub open spec fn r_debug_words(dso: DsoDebug, word: usize) -> Seq<u64> {
    seq![
        dso.version as u64,
        if dso.link_map@.len() == 0 {
            0
        } else {
            (LINK_MAP_ADDR + r_debug_size(word)) as u64
        },
        dso.brk,
        0,
        dso.ldbase,
    ]
}

/// The words of the `i`-th `link_map` record: `l_addr`, `l_name` (its name
/// block, right after the record), `l_ld`, `l_next` and `l_prev` (0 at the
/// ends of the list).
pub open spec fn record_words(es: Seq<LinkMapEntry>, names: Seq<Seq<u8>>, word: usize, i: int) -> Seq<
    u64,
> {
    seq![
        es[i].addr,
        (LINK_MAP_ADDR + record_offset(names, word, i) + 5 * word) as u64,
        es[i].ld,
        if i + 1 == es.len() {
            0
        } else {
            (LINK_MAP_ADDR + record_offset(names, word, i + 1)) as u64
        },
        if i == 0 {
            0
        } else {
            (LINK_MAP_ADDR + record_offset(names, word, i - 1)) as u64
        },
    ]
}

/// The first `n` records, each followed by its name block.
pub open spec fn records_bytes(es: Seq<LinkMapEntry>, names: Seq<Seq<u8>>, word: usize, n: int) -> Seq<
    u8,
>
    decreases n,
{
    if n <= 0 {
        Seq::empty()
    } else {
        records_bytes(es, names, word, n - 1) + words_bytes(record_words(es, names, word, n - 1), word)
            + name_block(names[n - 1])
    }
}

/// Every word of the first `n` records fits in `word` bytes.
pub open spec fn records_fit(es: Seq<LinkMapEntry>, names: Seq<Seq<u8>>, word: usize, n: int) -> bool {
    forall|i: int| 0 <= i < n ==> words_fit(#[trigger] record_words(es, names, word, i), word)
}

/// Whether the blob's addresses, counted from [`LINK_MAP_ADDR`], fit in 64 bits.
pub open spec fn link_map_blob_fits(dso: DsoDebug, sig: Map<u64, String>, word: usize) -> bool {
    LINK_MAP_ADDR + record_offset(entry_names(dso.link_map@, sig), word, dso.link_map@.len() as int)
        <= u64::MAX
}

/// The `r_debug` structure followed by the `link_map` records and their
/// names, as placed at [`LINK_MAP_ADDR`]; on a 32-bit target a word that does
/// not fit in 4 bytes fails with `IntegerOverflow("32-bit link-map word")`.
pub open spec fn link_map_blob(dso: DsoDebug, sig: Map<u64, String>, word: usize) -> Result<
    Seq<u8>,
    Md2CoreError,
> {
    let es = dso.link_map@;
    let names = entry_names(es, sig);
    if !words_fit(r_debug_words(dso, word), word) || !records_fit(es, names, word, es.len() as int) {
        Err(Md2CoreError::IntegerOverflow("32-bit link-map word"))
    } else {
        Ok(words_bytes(r_debug_words(dso, word), word) + records_bytes(es, names, word, es.len() as int))
    }
}

/// A word takes `word` bytes.
proof fn lemma_word_bytes_len(v: u64, word: usize)
    requires
        word == 8 || word == 4,
    ensures
        word_bytes(v, word).len() == word,
{
}

/// Five words take five times the word size.
proof fn lemma_five_words_len(ws: Seq<u64>, word: usize)
    requires
        ws.len() == 5,
        word == 8 || word == 4,
    ensures
        words_bytes(ws, word).len() == 5 * word,
{
    let w1 = ws.drop_last();
    let w2 = w1.drop_last();
    let w3 = w2.drop_last();
    let w4 = w3.drop_last();
    let w5 = w4.drop_last();
    lemma_word_bytes_len(ws.last(), word);
    lemma_word_bytes_len(w1.last(), word);
    lemma_word_bytes_len(w2.last(), word);
    lemma_word_bytes_len(w3.last(), word);
    lemma_word_bytes_len(w4.last(), word);
    assert(words_bytes(w5, word).len() == 0);
    assert(words_bytes(w4, word).len() == word);
    assert(words_bytes(w3, word).len() == 2 * word);
    assert(words_bytes(w2, word).len() == 3 * word);
    assert(words_bytes(w1, word).len() == 4 * word);
}

/// The records of the first `n` entries end where record `n` starts.
proof fn lemma_records_len(es: Seq<LinkMapEntry>, names: Seq<Seq<u8>>, word: usize, n: int)
    requires
        0 <= n <= es.len(),
        names.len() == es.len(),
        word == 8 || word == 4,
    ensures
        r_debug_size(word) + records_bytes(es, names, word, n).len() == record_offset(names, word, n),
    decreases n,
{
    if n > 0 {
        lemma_records_len(es, names, word, n - 1);
        lemma_five_words_len(record_words(es, names, word, n - 1), word);
    }
}

/// Record offsets grow with the index.
proof fn lemma_record_offset_monotone(names: Seq<Seq<u8>>, word: usize, i: int, j: int)
    requires
        0 <= i <= j,
    ensures
        record_offset(names, word, i) <= record_offset(names, word, j),
    decreases j - i,
{
    if i < j {
        lemma_record_offset_monotone(names, word, i, j - 1);
    }
}

/// Within the first `n` records, record `i` (its words, then its name block)
/// lies at its offset, counted after `r_debug`.
#[verifier::spinoff_prover]
#[verifier::rlimit(40)]
proof fn lemma_records_bytes_at(es: Seq<LinkMapEntry>, names: Seq<Seq<u8>>, word: usize, n: int, i: int)
    requires
        0 <= i < n <= es.len(),
        names.len() == es.len(),
        word == 8 || word == 4,
    ensures
        ({
            let b = records_bytes(es, names, word, n);
            let o = record_offset(names, word, i) - r_debug_size(word);
            &&& b.subrange(o, o + 5 * word) == words_bytes(record_words(es, names, word, i), word)
            &&& b.subrange(o + 5 * word, record_offset(names, word, i + 1) - r_debug_size(word))
                == name_block(names[i])
        }),
    decreases n,
{
    lemma_records_len(es, names, word, n - 1);
    lemma_records_len(es, names, word, n);
    lemma_five_words_len(record_words(es, names, word, n - 1), word);
    let b = records_bytes(es, names, word, n);
    let front = records_bytes(es, names, word, n - 1);
    if i == n - 1 {
        let o = record_offset(names, word, i) - r_debug_size(word);
        assert(o == front.len());
        assert(b.subrange(o, o + 5 * word) =~= words_bytes(record_words(es, names, word, i), word));
        assert(b.subrange(o + 5 * word, record_offset(names, word, i + 1) - r_debug_size(word))
            =~= name_block(names[i]));
    } else {
        lemma_records_bytes_at(es, names, word, n - 1, i);
        lemma_record_offset_monotone(names, word, i + 1, n - 1);
        let o = record_offset(names, word, i) - r_debug_size(word);
        assert(b.subrange(o, o + 5 * word) =~= front.subrange(o, o + 5 * word));
        assert(b.subrange(o + 5 * word, record_offset(names, word, i + 1) - r_debug_size(word))
            =~= front.subrange(o + 5 * word, record_offset(names, word, i + 1) - r_debug_size(word)));
    }
}

/// The rebuilt link map: `r_debug` (version, the address of the first
/// record or 0, `r_brk`, 0, `r_ldbase`) at the start; record `i` at its
/// offset, with its words (`l_addr`, the address of its name, `l_ld`, the
/// next and previous records' addresses or 0) followed by its name and 1 to 8
/// zero bytes; the blob ends where a record after the last would start.
#[verifier::spinoff_prover]
pub proof fn lemma_link_map_blob_layout(dso: DsoDebug, sig: Map<u64, String>, word: usize)
    requires
        word == 8 || word == 4,
        link_map_blob(dso, sig, word) is Ok,
    ensures
        ({
            let b = link_map_blob(dso, sig, word)->Ok_0;
            let es = dso.link_map@;
            let names = entry_names(es, sig);
            &&& b.len() == record_offset(names, word, es.len() as int)
            &&& b.subrange(0, 5 * word) == words_bytes(r_debug_words(dso, word), word)
            &&& forall|i: int|
                0 <= i < es.len() ==> {
                    &&& b.subrange(
                        #[trigger] record_offset(names, word, i) as int,
                        record_offset(names, word, i) + 5 * word,
                    ) == words_bytes(record_words(es, names, word, i), word)
                    &&& b.subrange(
                        record_offset(names, word, i) + 5 * word,
                        record_offset(names, word, i + 1) as int,
                    ) == name_block(names[i])
                }
        }),
{
    let es = dso.link_map@;
    let names = entry_names(es, sig);
    let n = es.len() as int;
    let b = link_map_blob(dso, sig, word)->Ok_0;
    let head = words_bytes(r_debug_words(dso, word), word);
    let recs = records_bytes(es, names, word, n);
    lemma_five_words_len(r_debug_words(dso, word), word);
    lemma_records_len(es, names, word, n);
    assert(head.len() == r_debug_size(word));
    assert(b == head + recs);
    assert(b.subrange(0, 5 * word) =~= head);
    assert forall|i: int| 0 <= i < es.len() implies {
        &&& b.subrange(
            #[trigger] record_offset(names, word, i) as int,
            record_offset(names, word, i) + 5 * word,
        ) == words_bytes(record_words(es, names, word, i), word)
        &&& b.subrange(record_offset(names, word, i) + 5 * word, record_offset(names, word, i + 1) as int)
            == name_block(names[i])
    } by {
        lemma_records_bytes_at(es, names, word, n, i);
        lemma_record_offset_monotone(names, word, 0, i);
        lemma_record_offset_monotone(names, word, i + 1, n);
        let o = record_offset(names, word, i) - r_debug_size(word);
        assert(b.subrange(record_offset(names, word, i) as int, record_offset(names, word, i) + 5 * word)
            =~= recs.subrange(o, o + 5 * word));
        assert(b.subrange(record_offset(names, word, i) + 5 * word, record_offset(names, word, i + 1) as int)
            =~= recs.subrange(o + 5 * word, record_offset(names, word, i + 1) - r_debug_size(word)));
    }
}

/// The word of `word` bytes (8, or else 4) at `off`, little-endian.
#[verifier::opaque]
pub open spec fn word_at(b: Seq<u8>, off: int, word: usize) -> u64 {
    if word == 8 {
        from_le64(b, off)
    } else {
        from_le32(b, off) as u64
    }
}

/// A word read inside a slice is the word read at the same place of the whole.
pub proof fn lemma_word_at_sub(b: Seq<u8>, o: int, len: int, off: int, word: usize)
    requires
        word == 8 || word == 4,
        0 <= o,
        o + len <= b.len(),
        0 <= off,
        off + word <= len,
    ensures
        word_at(b, o + off, word) == word_at(b.subrange(o, o + len), off, word),
{
    reveal(word_at);
    if word == 8 {
        lemma_from_le64_sub(b, o, len, off);
    } else {
        lemma_from_le32_sub(b, o, len, off);
    }
}

/// A word that fits is read back from its bytes.
pub proof fn lemma_word_bytes_decode(v: u64, word: usize)
    requires
        word == 8 || word == 4,
        word_fits(v, word),
    ensures
        word_bytes(v, word).len() == word,
        word_at(word_bytes(v, word), 0, word) == v,
{
    reveal(word_at);
    if word == 8 {
        crate::bytes::lemma_le64_decode(v);
    } else {
        crate::bytes::lemma_le32_decode(v as u32);
    }
}

/// Word `k` of a sequence of words is read back at `k * word`, where it fits.
proof fn lemma_words_bytes_at(ws: Seq<u64>, word: usize, k: int)
    requires
        word == 8 || word == 4,
        0 <= k < ws.len(),
        word_fits(ws[k], word),
    ensures
        words_bytes(ws, word).len() == ws.len() * word,
        k * word + word <= ws.len() * word,
        word_at(words_bytes(ws, word), k * word, word) == ws[k],
    decreases ws.len(),
{
    lemma_words_bytes_len(ws, word);
    lemma_words_bytes_len(ws.drop_last(), word);
    let w = words_bytes(ws, word);
    let d = words_bytes(ws.drop_last(), word);
    assert(k * word + word <= ws.len() * word) by (nonlinear_arith)
        requires
            k < ws.len(),
            word > 0,
    ;
    assert(0 <= k * word) by (nonlinear_arith)
        requires
            k >= 0,
            word > 0,
    ;
    reveal(word_at);
    if k == ws.len() - 1 {
        lemma_word_bytes_len(ws[k], word);
        assert((ws.len() - 1) * word == k * word);
        assert(d.len() == k * word);
        assert(w.subrange(k * word, k * word + word) =~= word_bytes(ws[k], word));
        if word == 8 {
            lemma_from_le64_at(w, k * word, ws[k]);
        } else {
            lemma_from_le32_at(w, k * word, ws[k] as u32);
        }
    } else {
        lemma_words_bytes_at(ws.drop_last(), word, k);
        lemma_word_at_sub(w, 0, d.len() as int, k * word, word);
        assert(w.subrange(0, d.len() as int) =~= d);
    }
}

/// Words of `word` bytes take `word` bytes each.
proof fn lemma_words_bytes_len(ws: Seq<u64>, word: usize)
    requires
        word == 8 || word == 4,
    ensures
        words_bytes(ws, word).len() == ws.len() * word,
    decreases ws.len(),
{
    if ws.len() > 0 {
        lemma_words_bytes_len(ws.drop_last(), word);
        lemma_word_bytes_len(ws.last(), word);
        assert((ws.len() - 1) * word + word == ws.len() * word) by (nonlinear_arith);
    }
}

/// The words of `r_debug` read back from the blob.
#[verifier::spinoff_prover]
proof fn lemma_link_map_head(dso: DsoDebug, sig: Map<u64, String>, word: usize)
    requires
        word == 8 || word == 4,
        link_map_blob(dso, sig, word) is Ok,
    ensures
        ({
            let b = link_map_blob(dso, sig, word)->Ok_0;
            let rd = r_debug_words(dso, word);
            let w = word as int;
            &&& word_at(b, 0, word) == rd[0]
            &&& word_at(b, w, word) == rd[1]
            &&& word_at(b, 2 * w, word) == rd[2]
            &&& word_at(b, 3 * w, word) == rd[3]
            &&& word_at(b, 4 * w, word) == rd[4]
        }),
{
    let b = link_map_blob(dso, sig, word)->Ok_0;
    let w = word as int;
    lemma_link_map_blob_layout(dso, sig, word);
    let rd = r_debug_words(dso, word);
    lemma_words_bytes_len(rd, word);
    assert forall|k: int| 0 <= k < 5 implies word_at(b, k * w, word) == #[trigger] rd[k] by {
        lemma_words_bytes_at(rd, word, k);
        lemma_word_at_sub(b, 0, 5 * w, k * w, word);
    }
    assert(word_at(b, 0 * w, word) == rd[0]);
    assert(word_at(b, 1 * w, word) == rd[1]);
    assert(word_at(b, 2 * w, word) == rd[2]);
    assert(word_at(b, 3 * w, word) == rd[3]);
    assert(word_at(b, 4 * w, word) == rd[4]);
}

/// Record `i` and its name block stand at their offsets in the blob.
#[verifier::spinoff_prover]
#[verifier::rlimit(40)]
proof fn lemma_link_map_record_slices(dso: DsoDebug, sig: Map<u64, String>, word: usize, i: int)
    requires
        word == 8 || word == 4,
        link_map_blob(dso, sig, word) is Ok,
        0 <= i < dso.link_map@.len(),
    ensures
        ({
            let b = link_map_blob(dso, sig, word)->Ok_0;
            let names = entry_names(dso.link_map@, sig);
            let at = record_offset(names, word, i) as int;
            let w = word as int;
            &&& at + 5 * w + names[i].len() <= b.len()
            &&& b.subrange(at, at + 5 * w) == words_bytes(
                record_words(dso.link_map@, names, word, i),
                word,
            )
            &&& b.subrange(at + 5 * w, at + 5 * w + names[i].len()) == names[i]
        }),
{
    let b = link_map_blob(dso, sig, word)->Ok_0;
    let es = dso.link_map@;
    let n = es.len() as int;
    let names = entry_names(es, sig);
    let w = word as int;
    let at = record_offset(names, word, i) as int;
    lemma_record_offset_monotone(names, word, i + 1, n);
    lemma_link_map_blob_layout(dso, sig, word);
    let blk = b.subrange(at + 5 * w, record_offset(names, word, i + 1) as int);
    assert(blk == name_block(names[i]));
    assert(b.subrange(at + 5 * w, at + 5 * w + names[i].len()) =~= blk.subrange(
        0,
        names[i].len() as int,
    ));
    assert(blk.subrange(0, names[i].len() as int) =~= names[i]);
}

/// The words and name of record `i` read back from the blob.
#[verifier::spinoff_prover]
proof fn lemma_link_map_record_words(dso: DsoDebug, sig: Map<u64, String>, word: usize, i: int)
    requires
        word == 8 || word == 4,
        link_map_blob(dso, sig, word) is Ok,
        0 <= i < dso.link_map@.len(),
    ensures
        ({
            let b = link_map_blob(dso, sig, word)->Ok_0;
            let names = entry_names(dso.link_map@, sig);
            let ws = record_words(dso.link_map@, names, word, i);
            let at = record_offset(names, word, i) as int;
            let w = word as int;
            &&& word_at(b, at, word) == ws[0]
            &&& word_at(b, at + w, word) == ws[1]
            &&& word_at(b, at + 2 * w, word) == ws[2]
            &&& word_at(b, at + 3 * w, word) == ws[3]
            &&& word_at(b, at + 4 * w, word) == ws[4]
            &&& b.subrange(at + 5 * w, at + 5 * w + names[i].len()) == names[i]
        }),
{
    let b = link_map_blob(dso, sig, word)->Ok_0;
    let es = dso.link_map@;
    let names = entry_names(es, sig);
    let w = word as int;
    let at = record_offset(names, word, i) as int;
    let ws = record_words(es, names, word, i);
    lemma_link_map_record_slices(dso, sig, word, i);
    lemma_words_bytes_len(ws, word);
    assert(words_fit(ws, word));
    assert forall|k: int| 0 <= k < 5 implies word_at(b, at + k * w, word) == #[trigger] ws[k] by {
        lemma_words_bytes_at(ws, word, k);
        lemma_word_at_sub(b, at, 5 * w, k * w, word);
    }
    assert(word_at(b, at + 0 * w, word) == ws[0]);
    assert(word_at(b, at + 1 * w, word) == ws[1]);
    assert(word_at(b, at + 2 * w, word) == ws[2]);
    assert(word_at(b, at + 3 * w, word) == ws[3]);
    assert(word_at(b, at + 4 * w, word) == ws[4]);
}

/// The words and name of record `i` read back from the blob, as addresses.
#[verifier::spinoff_prover]
proof fn lemma_link_map_record(dso: DsoDebug, sig: Map<u64, String>, word: usize, i: int)
    requires
        word == 8 || word == 4,
        link_map_blob(dso, sig, word) is Ok,
        link_map_blob_fits(dso, sig, word),
        0 <= i < dso.link_map@.len(),
    ensures
        ({
            let b = link_map_blob(dso, sig, word)->Ok_0;
            let names = entry_names(dso.link_map@, sig);
            let es = dso.link_map@;
            let n = es.len() as int;
            let at = record_offset(names, word, i) as int;
            let w = word as int;
            &&& word_at(b, at, word) == es[i].addr
            &&& word_at(b, at + w, word) == LINK_MAP_ADDR + at + 5 * w
            &&& b.subrange(at + 5 * w, at + 5 * w + names[i].len()) == names[i]
            &&& word_at(b, at + 2 * w, word) == es[i].ld
            &&& word_at(b, at + 3 * w, word) == if i + 1 < n {
                LINK_MAP_ADDR + record_offset(names, word, i + 1)
            } else {
                0
            }
            &&& word_at(b, at + 4 * w, word) == if i > 0 {
                LINK_MAP_ADDR + record_offset(names, word, i - 1)
            } else {
                0
            }
        }),
{
    let es = dso.link_map@;
    let n = es.len() as int;
    let names = entry_names(es, sig);
    lemma_link_map_record_words(dso, sig, word, i);
    lemma_record_offset_monotone(names, word, i + 1, n);
    if i > 0 {
        lemma_record_offset_monotone(names, word, i - 1, n);
    }
}

/// The rebuilt link map read as a list: `r_debug` holds the version, the
/// address of the first record (0 without records), `r_brk`, 0 and
/// `r_ldbase`; record `i` holds the entry's load address, the address of its
/// name (right after the record, where the name's bytes stand), its
/// `_DYNAMIC` address, and the addresses of the next and previous records (0
/// at the ends). So `l_next` of record `i - 1` and `l_prev` of record `i`
/// point at each other.
#[verifier::spinoff_prover]
pub proof fn lemma_link_map_list(dso: DsoDebug, sig: Map<u64, String>, word: usize)
    requires
        word == 8 || word == 4,
        link_map_blob(dso, sig, word) is Ok,
        link_map_blob_fits(dso, sig, word),
    ensures
        ({
            let b = link_map_blob(dso, sig, word)->Ok_0;
            let es = dso.link_map@;
            let n = es.len() as int;
            let names = entry_names(es, sig);
            let w = word as int;
            &&& word_at(b, 0, word) == dso.version
            &&& word_at(b, w, word) == if n == 0 {
                0
            } else {
                LINK_MAP_ADDR + record_offset(names, word, 0)
            }
            &&& word_at(b, 2 * w, word) == dso.brk
            &&& word_at(b, 3 * w, word) == 0
            &&& word_at(b, 4 * w, word) == dso.ldbase
            &&& forall|i: int|
                0 <= i < n ==> {
                    let at = #[trigger] record_offset(names, word, i) as int;
                    &&& word_at(b, at, word) == es[i].addr
                    &&& word_at(b, at + w, word) == LINK_MAP_ADDR + at + 5 * w
                    &&& b.subrange(at + 5 * w, at + 5 * w + names[i].len()) == names[i]
                    &&& word_at(b, at + 2 * w, word) == es[i].ld
                    &&& word_at(b, at + 3 * w, word) == if i + 1 < n {
                        LINK_MAP_ADDR + record_offset(names, word, i + 1)
                    } else {
                        0
                    }
                    &&& word_at(b, at + 4 * w, word) == if i > 0 {
                        LINK_MAP_ADDR + record_offset(names, word, i - 1)
                    } else {
                        0
                    }
                }
        }),
{
    let es = dso.link_map@;
    let n = es.len() as int;
    let names = entry_names(es, sig);
    lemma_link_map_head(dso, sig, word);
    if n > 0 {
        lemma_record_offset_monotone(names, word, 0, n);
    }
    assert forall|i: int| 0 <= i < n implies {
        let at = #[trigger] record_offset(names, word, i) as int;
        let b = link_map_blob(dso, sig, word)->Ok_0;
        let w = word as int;
        &&& word_at(b, at, word) == es[i].addr
        &&& word_at(b, at + w, word) == LINK_MAP_ADDR + at + 5 * w
        &&& b.subrange(at + 5 * w, at + 5 * w + names[i].len()) == names[i]
        &&& word_at(b, at + 2 * w, word) == es[i].ld
        &&& word_at(b, at + 3 * w, word) == if i + 1 < n {
            LINK_MAP_ADDR + record_offset(names, word, i + 1)
        } else {
            0
        }
        &&& word_at(b, at + 4 * w, word) == if i > 0 {
            LINK_MAP_ADDR + record_offset(names, word, i - 1)
        } else {
            0
        }
    } by {
        lemma_link_map_record(dso, sig, word, i);
    }
}

/// Appends `value` as a word of `word` bytes, failing with
/// `IntegerOverflow("32-bit link-map word")` when it does not fit in 4 bytes.
fn push_word(out: &mut Vec<u8>, value: u64, word: usize) -> (r: Result<(), Md2CoreError>)
    ensures
        match r {
            Ok(()) => word_fits(value, word) && final(out)@ == old(out)@ + word_bytes(value, word),
            Err(e) => !word_fits(value, word) && e == Md2CoreError::IntegerOverflow(
                "32-bit link-map word",
            ),
        },
{
    if word == 8 {
        push_u64(out, value);
    } else {
        if value > 0xffff_ffff {
            return Err(Md2CoreError::IntegerOverflow("32-bit link-map word"));
        }
        push_u32(out, value as u32);
    }
    Ok(())
}

/// Appends five words, failing on the first that does not fit.
fn push_words(out: &mut Vec<u8>, ws: [u64; 5], word: usize) -> (r: Result<(), Md2CoreError>)
    ensures
        match r {
            Ok(()) => words_fit(ws@, word) && final(out)@ == old(out)@ + words_bytes(ws@, word),
            Err(e) => !words_fit(ws@, word) && e == Md2CoreError::IntegerOverflow(
                "32-bit link-map word",
            ),
        },
{
    let ghost start = out@;
    let mut i: usize = 0;
    while i < 5
        invariant
            i <= 5,
            ws@.len() == 5,
            words_fit(ws@.take(i as int), word),
            out@ == start + words_bytes(ws@.take(i as int), word),
        decreases 5 - i,
    {
        assert(ws@.take(i + 1).drop_last() =~= ws@.take(i as int));
        match push_word(out, ws[i], word) {
            Ok(()) => {},
            Err(e) => {
                assert(!word_fits(ws@[i as int], word));
                return Err(e);
            },
        }
        i = i + 1;
        assert(out@ =~= start + words_bytes(ws@.take(i as int), word));
    }
    assert(ws@.take(5) =~= ws@);
    Ok(())
}

/// The name recorded for a link-map entry: its signature override when one
/// exists for its load address, else its own name.
fn name_for(entry: &LinkMapEntry, signatures: &BTreeMap<u64, String>) -> (r: String)
    ensures
        vstd::utf8::encode_utf8(r@) == entry_name(*entry, signatures@),
{
    broadcast use vstd::std_specs::btree::group_btree_axioms;

    proof {
        lemma_u64_keys_ordered();
    }
    match signatures.get(&entry.addr) {
        Some(s) => s.clone(),
        None => entry.name.clone(),
    }
}

/// Size of a name block: the name, then 1 to 8 zero bytes up to a multiple of 8.
fn filename_padded_size(s: &str) -> (r: u64)
    requires
        s.spec_bytes().len() + 8 <= u64::MAX,
    ensures
        r == name_block(s.spec_bytes()).len(),
{
    let n = s.as_bytes().len() as u64;
    assert(n & 7 == n % 8 && n & 7 < 8) by (bit_vector);
    let pad = 8 - (n & 7);
    n + pad
}

/// Address of the `link_map` record that precedes the name block of
/// `prev_name_block` bytes at the end of `current_data`.
fn link_map_record_addr(base: u64, current_data: &[u8], link_map_size: usize, prev_name_block: u64) -> (r: u64)
    requires
        prev_name_block + link_map_size <= current_data@.len(),
        base + current_data@.len() <= u64::MAX,
    ensures
        r == base + current_data@.len() - prev_name_block - link_map_size,
{
    base + current_data.len() as u64 - prev_name_block - link_map_size as u64
}

/// The words of record `i`, computed while the blob holds the records before it.
fn link_record_words(
    dso: &DsoDebug,
    signatures: &BTreeMap<u64, String>,
    i: usize,
    data: &[u8],
    word: usize,
) -> (r: [u64; 5])
    requires
        i < dso.link_map@.len(),
        word == 8 || word == 4,
        LINK_MAP_ADDR + record_offset(
            entry_names(dso.link_map@, signatures@),
            word,
            dso.link_map@.len() as int,
        ) <= u64::MAX,
        data@.len() == record_offset(entry_names(dso.link_map@, signatures@), word, i as int),
    ensures
        r@ == record_words(dso.link_map@, entry_names(dso.link_map@, signatures@), word, i as int),
{
    let ghost es = dso.link_map@;
    let ghost names = entry_names(es, signatures@);
    let n = dso.link_map.len();
    let link_map_size = 5 * word;
    let entry = &dso.link_map[i];
    let filename = name_for(entry, signatures);
    assert(vstd::utf8::encode_utf8(filename@) == names[i as int]);
    proof {
        lemma_record_offset_monotone(names, word, i + 1, n as int);
    }
    assert(data@.len() + link_map_size + name_block(names[i as int]).len() == record_offset(
        names,
        word,
        i + 1,
    ));
    let name_offset = LINK_MAP_ADDR + data.len() as u64 + link_map_size as u64;
    let prev = if i == 0 {
        0
    } else {
        let before = name_for(&dso.link_map[i - 1], signatures);
        assert(vstd::utf8::encode_utf8(before@) == names[i - 1]);
        assert(record_offset(names, word, i as int) == record_offset(names, word, i - 1) + 5 * word
            + name_block(names[i - 1]).len());
        link_map_record_addr(
            LINK_MAP_ADDR,
            data,
            link_map_size,
            filename_padded_size(before.as_str()),
        )
    };
    let next = if i + 1 == n {
        0
    } else {
        LINK_MAP_ADDR + data.len() as u64 + link_map_size as u64 + filename_padded_size(
            filename.as_str(),
        )
    };
    let ws = [entry.addr, name_offset, entry.ld, next, prev];
    assert(ws@ =~= record_words(es, names, word, i as int));
    ws
}

/// Builds the `r_debug` structure followed by the `link_map` records, each
/// with its name string after it.
fn build_link_map_blob(arch: Architecture, dso: &DsoDebug, signatures: &BTreeMap<u64, String>) -> (r:
    Result<Vec<u8>, Md2CoreError>)
    requires
        link_map_blob_fits(*dso, signatures@, arch.spec_long_size()),
    ensures
        match link_map_blob(*dso, signatures@, arch.spec_long_size()) {
            Ok(bytes) => r matches Ok(v) && v@ == bytes,
            Err(e) => r == Err::<Vec<u8>, Md2CoreError>(e),
        },
{
    let word = arch.long_size();
    let r_debug_size: usize = if arch.is_64bit() {
        40
    } else {
        20
    };
    let ghost es = dso.link_map@;
    let ghost names = entry_names(es, signatures@);
    let n = dso.link_map.len();
    proof {
        lemma_record_offset_monotone(names, word, 0, n as int);
    }
    let mut data: Vec<u8> = Vec::new();
    let r_map: u64 = if n == 0 {
        0
    } else {
        LINK_MAP_ADDR + r_debug_size as u64
    };
    let head = [dso.version as u64, r_map, dso.brk, 0, dso.ldbase];
    assert(head@ =~= r_debug_words(*dso, word));
    match push_words(&mut data, head, word) {
        Ok(()) => {},
        Err(e) => {
            return Err(e);
        },
    }
    assert(data@ =~= words_bytes(r_debug_words(*dso, word), word));
    proof {
        lemma_five_words_len(r_debug_words(*dso, word), word);
    }
    let ghost rd = data@;
    let mut i: usize = 0;
    while i < n
        invariant
            i <= n,
            n == es.len(),
            es == dso.link_map@,
            names == entry_names(es, signatures@),
            word == arch.spec_long_size(),
            word == 8 || word == 4,
            rd == words_bytes(r_debug_words(*dso, word), word),
            words_fit(r_debug_words(*dso, word), word),
            LINK_MAP_ADDR + record_offset(names, word, n as int) <= u64::MAX,
            records_fit(es, names, word, i as int),
            data@ == rd + records_bytes(es, names, word, i as int),
            data@.len() == record_offset(names, word, i as int),
        decreases n - i,
    {
        let ws = link_record_words(dso, signatures, i, data.as_slice(), word);
        let ghost before = data@;
        match push_words(&mut data, ws, word) {
            Ok(()) => {},
            Err(e) => {
                assert(!records_fit(es, names, word, n as int));
                return Err(e);
            },
        }
        let filename = name_for(&dso.link_map[i], signatures);
        let name_bytes = filename.as_str().as_bytes();
        push_all(&mut data, name_bytes);
        let len = name_bytes.len();
        assert(len & 7 == len % 8 && len & 7 < 8) by (bit_vector);
        let pad = 8 - (len & 7);
        push_zeros(&mut data, pad);
        proof {
            lemma_five_words_len(ws@, word);
        }
        assert(data@ =~= rd + records_bytes(es, names, word, i + 1));
        i = i + 1;
    }
    Ok(data)
}

// --- patching `_DYNAMIC` -------------------------------------------------------

/// The `DT_DEBUG` dynamic tag, whose value the loader sets to the address of
/// `r_debug`.
pub const DT_DEBUG: u64 = 21;

/// The `DT_NULL` tag that ends the dynamic array.
pub const DT_NULL: u64 = 0;

/// Size of one `Elf_Dyn` entry: a tag word and a value word.
pub open spec fn dyn_entry_size(is64: bool) -> int {
    if is64 {
        16
    } else {
        8
    }
}

/// The tag of the dynamic entry at `off`.
pub open spec fn dyn_tag(d: Seq<u8>, off: int, is64: bool) -> u64 {
    if is64 {
        from_le64(d, off)
    } else {
        from_le32(d, off) as u64
    }
}

/// Offset of the first whole entry at or after `off` tagged `DT_DEBUG`,
/// unless a `DT_NULL` entry or the end of the data comes first.
pub open spec fn dt_debug_offset(d: Seq<u8>, is64: bool, off: int) -> Option<int>
    decreases d.len() - off,
{
    if off < 0 || off + dyn_entry_size(is64) > d.len() {
        None
    } else if dyn_tag(d, off, is64) == DT_DEBUG {
        Some(off)
    } else if dyn_tag(d, off, is64) == DT_NULL {
        None
    } else {
        dt_debug_offset(d, is64, off + dyn_entry_size(is64))
    }
}

/// `d` with `bytes` written over it from `at`.
pub open spec fn overwrite_at(d: Seq<u8>, at: int, bytes: Seq<u8>) -> Seq<u8> {
    d.subrange(0, at) + bytes + d.subrange(at + bytes.len(), d.len() as int)
}

/// The dynamic array with the value of its first `DT_DEBUG` entry set to
/// `link_map_addr`; on a 32-bit target an address that does not fit fails
/// with `IntegerOverflow("32-bit dynamic word")`.
pub open spec fn patched_dynamic(d: Seq<u8>, is64: bool, link_map_addr: u64) -> Result<
    Seq<u8>,
    Md2CoreError,
> {
    match dt_debug_offset(d, is64, 0) {
        None => Ok(d),
        Some(off) => {
            let at = off + dyn_entry_size(is64) / 2;
            if is64 {
                Ok(overwrite_at(d, at, le64(link_map_addr)))
            } else if link_map_addr > u32::MAX {
                Err(Md2CoreError::IntegerOverflow("32-bit dynamic word"))
            } else {
                Ok(overwrite_at(d, at, le32(link_map_addr as u32)))
            }
        },
    }
}

/// The entry `dt_debug_offset` finds is tagged `DT_DEBUG`, lies within the
/// array, starts on an entry boundary, and every entry before it is neither
/// `DT_DEBUG` nor `DT_NULL`.
pub proof fn lemma_dt_debug_offset(d: Seq<u8>, is64: bool, off: int)
    requires
        off >= 0,
    ensures
        dt_debug_offset(d, is64, off) matches Some(o) ==> {
            &&& off <= o
            &&& o + dyn_entry_size(is64) <= d.len()
            &&& (o - off) % dyn_entry_size(is64) == 0
            &&& dyn_tag(d, o, is64) == DT_DEBUG
            &&& forall|q: int|
                off <= q < o && (q - off) % dyn_entry_size(is64) == 0 ==> dyn_tag(d, q, is64)
                    != DT_DEBUG && #[trigger] dyn_tag(d, q, is64) != DT_NULL
        },
    decreases d.len() - off,
{
    let n = dyn_entry_size(is64);
    if off + n <= d.len() && dyn_tag(d, off, is64) != DT_DEBUG && dyn_tag(d, off, is64) != DT_NULL {
        lemma_dt_debug_offset(d, is64, off + n);
        if let Some(o) = dt_debug_offset(d, is64, off) {
            assert((o - off) % n == 0) by (nonlinear_arith)
                requires
                    (o - (off + n)) % n == 0,
                    n > 0,
            ;
            assert forall|q: int|
                off <= q < o && (q - off) % n == 0 implies dyn_tag(d, q, is64) != DT_DEBUG
                    && #[trigger] dyn_tag(d, q, is64) != DT_NULL by {
                if q != off {
                    assert(q >= off + n) by (nonlinear_arith)
                        requires
                            (q - off) % n == 0,
                            q > off,
                            n > 0,
                    ;
                    assert((q - (off + n)) % n == 0) by (nonlinear_arith)
                        requires
                            (q - off) % n == 0,
                            n > 0,
                    ;
                }
            }
        }
    }
}

/// Patching `_DYNAMIC` changes only the value word of its first `DT_DEBUG`
/// entry, which then holds the link map's address; without such an entry
/// the array stays as it is.
pub proof fn lemma_patched_dynamic(d: Seq<u8>, is64: bool, link_map_addr: u64)
    ensures
        patched_dynamic(d, is64, link_map_addr) matches Ok(p) ==> {
            &&& p.len() == d.len()
            &&& match dt_debug_offset(d, is64, 0) {
                None => p == d,
                Some(o) => {
                    let w = dyn_entry_size(is64) / 2;
                    &&& dyn_tag(p, o, is64) == DT_DEBUG
                    &&& word_at(p, o + w, if is64 { 8usize } else { 4usize }) == link_map_addr
                    &&& forall|k: int|
                        0 <= k < d.len() && !(o + w <= k < o + 2 * w) ==> #[trigger] p[k] == d[k]
                },
            }
        },
{
    lemma_dt_debug_offset(d, is64, 0);
    if let Ok(p) = patched_dynamic(d, is64, link_map_addr) {
        if let Some(o) = dt_debug_offset(d, is64, 0) {
            let w = dyn_entry_size(is64) / 2;
            let bytes = if is64 {
                le64(link_map_addr)
            } else {
                le32(link_map_addr as u32)
            };
            assert(p == overwrite_at(d, o + w, bytes));
            assert(bytes.len() == w);
            assert(p.subrange(o + w, o + 2 * w) =~= bytes);
            assert forall|k: int| 0 <= k < d.len() && !(o + w <= k < o + 2 * w) implies #[trigger] p[k]
                == d[k] by {}
            reveal(word_at);
            if is64 {
                lemma_from_le64_at(p, o + w, link_map_addr);
                assert(from_le64(p, o) == from_le64(d, o));
            } else {
                lemma_from_le32_at(p, o + w, link_map_addr as u32);
                assert(from_le32(p, o) == from_le32(d, o));
            }
        }
    }
}

/// The tag and value words of the dynamic entry at `off`.
fn read_word_pair(arch: Architecture, bytes: &[u8], off: usize) -> (r: (u64, u64))
    requires
        off + dyn_entry_size(arch.spec_is_64bit()) <= bytes@.len(),
    ensures
        r.0 == dyn_tag(bytes@, off as int, arch.spec_is_64bit()),
{
    let len = bytes.len();
    if arch.is_64bit() {
        (read_u64(bytes, off), read_u64(bytes, off + 8))
    } else {
        (read_u32(bytes, off) as u64, read_u32(bytes, off + 4) as u64)
    }
}

/// Writes `value` as a target word at `at`, failing with
/// `IntegerOverflow("32-bit dynamic word")` when it does not fit in 4 bytes.
fn write_word(arch: Architecture, data: &mut Vec<u8>, at: usize, value: u64) -> (r: Result<
    (),
    Md2CoreError,
>)
    requires
        at + 8 <= old(data)@.len() || (!arch.spec_is_64bit() && at + 4 <= old(data)@.len()),
    ensures
        match r {
            Ok(()) => if arch.spec_is_64bit() {
                final(data)@ == overwrite_at(old(data)@, at as int, le64(value))
            } else {
                value <= u32::MAX && final(data)@ == overwrite_at(
                    old(data)@,
                    at as int,
                    le32(value as u32),
                )
            },
            Err(e) => !arch.spec_is_64bit() && value > u32::MAX && e
                == Md2CoreError::IntegerOverflow("32-bit dynamic word"),
        },
{
    let bytes: Vec<u8> = if arch.is_64bit() {
        let mut b: Vec<u8> = Vec::new();
        push_u64(&mut b, value);
        b
    } else {
        if value > 0xffff_ffff {
            return Err(Md2CoreError::IntegerOverflow("32-bit dynamic word"));
        }
        let mut b: Vec<u8> = Vec::new();
        push_u32(&mut b, value as u32);
        b
    };
    let ghost d0 = data@;
    let len = data.len();
    let mut i: usize = 0;
    while i < bytes.len()
        invariant
            i <= bytes@.len(),
            bytes@.len() == 8 || bytes@.len() == 4,
            at + bytes@.len() <= d0.len(),
            d0.len() == len,
            data@.len() == d0.len(),
            forall|k: int| 0 <= k < d0.len() ==> data@[k] == (if at <= k < at + i {
                bytes@[k - at]
            } else {
                d0[k]
            }),
        decreases bytes@.len() - i,
    {
        data.set(at + i, bytes[i]);
        i = i + 1;
    }
    assert(data@ =~= overwrite_at(d0, at as int, bytes@));
    Ok(())
}

/// Sets the value of the first `DT_DEBUG` entry of `dynamic_data` to
/// `link_map_addr`; the scan stops at a `DT_NULL` entry.
fn patch_dt_debug(arch: Architecture, dynamic_data: &mut Vec<u8>, link_map_addr: u64) -> (r: Result<
    (),
    Md2CoreError,
>)
    ensures
        match patched_dynamic(old(dynamic_data)@, arch.spec_is_64bit(), link_map_addr) {
            Ok(d) => r is Ok && final(dynamic_data)@ == d,
            Err(e) => r == Err::<(), Md2CoreError>(e),
        },
{
    let entry: usize = if arch.is_64bit() {
        16
    } else {
        8
    };
    let ghost is64 = arch.spec_is_64bit();
    let mut offset: usize = 0;
    while offset <= dynamic_data.len() && entry <= dynamic_data.len() - offset
        invariant
            entry == dyn_entry_size(is64),
            is64 == arch.spec_is_64bit(),
            dynamic_data@ == old(dynamic_data)@,
            dt_debug_offset(dynamic_data@, is64, 0) == dt_debug_offset(dynamic_data@, is64, offset as int),
        decreases dynamic_data@.len() - offset,
    {
        let (tag, _) = read_word_pair(arch, dynamic_data.as_slice(), offset);
        if tag == DT_DEBUG {
            let value_off = offset + entry / 2;
            return write_word(arch, dynamic_data, value_off, link_map_addr);
        }
        if tag == DT_NULL {
            return Ok(());
        }
        offset = offset + entry;
    }
    Ok(())
}

// --- the whole pass ----------------------------------------------------------

/// The table after adding each thread's non-empty stack at its address, in
/// thread order, and the first error.
pub open spec fn add_stacks(m: Map<u64, MappingModel>, ts: Seq<ThreadSnapshot>) -> (
    Map<u64, MappingModel>,
    Result<(), Md2CoreError>,
)
    decreases ts.len(),
{
    if ts.len() == 0 {
        (m, Ok(()))
    } else {
        let prev = add_stacks(m, ts.drop_last());
        let t = ts.last();
        if prev.1 is Err || t.stack@.len() == 0 {
            prev
        } else {
            add_data_spec(prev.0, t.stack@, t.stack_address, DEFAULT_PAGE_SIZE)
        }
    }
}

/// Whether adding some thread's stack would underflow (see
/// [`add_data_underflows`]).
pub open spec fn stacks_underflow(m: Map<u64, MappingModel>, ts: Seq<ThreadSnapshot>) -> bool
    decreases ts.len(),
{
    if ts.len() == 0 {
        false
    } else {
        let prev = add_stacks(m, ts.drop_last());
        let t = ts.last();
        ||| stacks_underflow(m, ts.drop_last())
        ||| (prev.1 is Ok && t.stack@.len() > 0 && add_data_underflows(
            prev.0,
            t.stack@,
            t.stack_address,
            DEFAULT_PAGE_SIZE,
        ))
    }
}

/// Whether the process carries any dynamic-linker data.
pub open spec fn has_dso_info(d: DsoDebug) -> bool {
    d.version != 0 || d.link_map@.len() > 0 || d.dynamic_data@.len() > 0
}

/// The mapping table after augmentation, and its result: the thread stacks,
/// then (when there is dynamic-linker data) the rebuilt link map at
/// [`LINK_MAP_ADDR`], then (when `_DYNAMIC` was captured at a known address)
/// the `_DYNAMIC` bytes with `DT_DEBUG` pointing at the link map. The first
/// error stops the pass; what was added before it stays.
pub open spec fn augment_spec(p: CrashedProcess) -> (Map<u64, MappingModel>, Result<(), Md2CoreError>) {
    let word = p.architecture.spec_long_size();
    let st = add_stacks(table_models(p.mappings@), p.threads@);
    if st.1 is Err || !has_dso_info(p.dso_debug) {
        st
    } else {
        match link_map_blob(p.dso_debug, p.signatures@, word) {
            Err(e) => (st.0, Err(e)),
            Ok(blob) => {
                let lm = add_data_spec(st.0, blob, LINK_MAP_ADDR, DEFAULT_PAGE_SIZE);
                if lm.1 is Err || p.dso_debug.dynamic_data@.len() == 0 || p.dso_debug.dynamic == 0 {
                    lm
                } else {
                    match patched_dynamic(
                        p.dso_debug.dynamic_data@,
                        p.architecture.spec_is_64bit(),
                        LINK_MAP_ADDR,
                    ) {
                        Err(e) => (lm.0, Err(e)),
                        Ok(d) => add_data_spec(lm.0, d, p.dso_debug.dynamic, DEFAULT_PAGE_SIZE),
                    }
                }
            },
        }
    }
}

/// Whether the pass would hit an arithmetic underflow or overflow: a stack,
/// the link map or `_DYNAMIC` added over a file-backed mapping whose key lies
/// above the page, or a link map too large for 64-bit addresses.
pub open spec fn augment_panics(p: CrashedProcess) -> bool {
    let word = p.architecture.spec_long_size();
    let st = add_stacks(table_models(p.mappings@), p.threads@);
    let blob = link_map_blob(p.dso_debug, p.signatures@, word);
    let lm = add_data_spec(st.0, blob->Ok_0, LINK_MAP_ADDR, DEFAULT_PAGE_SIZE);
    let dd = patched_dynamic(p.dso_debug.dynamic_data@, p.architecture.spec_is_64bit(), LINK_MAP_ADDR);
    ||| stacks_underflow(table_models(p.mappings@), p.threads@)
    ||| (st.1 is Ok && has_dso_info(p.dso_debug) && !link_map_blob_fits(
        p.dso_debug,
        p.signatures@,
        word,
    ))
    ||| (st.1 is Ok && has_dso_info(p.dso_debug) && blob is Ok && add_data_underflows(
        st.0,
        blob->Ok_0,
        LINK_MAP_ADDR,
        DEFAULT_PAGE_SIZE,
    ))
    ||| (st.1 is Ok && has_dso_info(p.dso_debug) && blob is Ok && lm.1 is Ok
        && p.dso_debug.dynamic_data@.len() > 0 && p.dso_debug.dynamic != 0 && dd is Ok
        && add_data_underflows(lm.0, dd->Ok_0, p.dso_debug.dynamic, DEFAULT_PAGE_SIZE))
}

/// A successful result without a value is `Ok(())`.
proof fn lemma_ok_unit(r: Result<(), Md2CoreError>)
    requires
        r is Ok,
    ensures
        r == Ok::<(), Md2CoreError>(()),
{
    let u: () = r->Ok_0;
}

/// Once adding a stack failed, later threads change nothing.
proof fn lemma_add_stacks_error_sticks(m: Map<u64, MappingModel>, ts: Seq<ThreadSnapshot>, j: int)
    requires
        0 <= j <= ts.len(),
        add_stacks(m, ts.take(j)).1 is Err,
    ensures
        add_stacks(m, ts) == add_stacks(m, ts.take(j)),
    decreases ts.len() - j,
{
    if j == ts.len() {
        assert(ts.take(j) =~= ts);
    } else {
        assert(ts.drop_last().take(j) =~= ts.take(j));
        lemma_add_stacks_error_sticks(m, ts.drop_last(), j);
    }
}

/// An underflow among the first `j` threads is an underflow of all of them.
proof fn lemma_stacks_underflow_prefix(m: Map<u64, MappingModel>, ts: Seq<ThreadSnapshot>, j: int)
    requires
        0 <= j <= ts.len(),
        stacks_underflow(m, ts.take(j)),
    ensures
        stacks_underflow(m, ts),
    decreases ts.len() - j,
{
    if j == ts.len() {
        assert(ts.take(j) =~= ts);
    } else {
        assert(ts.drop_last().take(j) =~= ts.take(j));
        lemma_stacks_underflow_prefix(m, ts.drop_last(), j);
    }
}

/// Without an underflow among the first `j` threads, and with an error
/// after them, there is no underflow at all.
proof fn lemma_no_underflow_after_error(m: Map<u64, MappingModel>, ts: Seq<ThreadSnapshot>, j: int)
    requires
        0 <= j <= ts.len(),
        add_stacks(m, ts.take(j)).1 is Err,
        !stacks_underflow(m, ts.take(j)),
    ensures
        !stacks_underflow(m, ts),
    decreases ts.len() - j,
{
    if j == ts.len() {
        assert(ts.take(j) =~= ts);
    } else {
        assert(ts.drop_last().take(j) =~= ts.take(j));
        lemma_no_underflow_after_error(m, ts.drop_last(), j);
        lemma_add_stacks_error_sticks(m, ts.drop_last(), j);
    }
}

/// Adds each thread's non-empty stack to the mapping table, in thread order;
/// `None` when a stack would underflow (see [`stacks_underflow`]), at which
/// point the stacks before it are in the table.
fn add_thread_stacks(process: &mut CrashedProcess) -> (r: Option<Result<(), Md2CoreError>>)
    ensures
        r is None <==> stacks_underflow(table_models(old(process).mappings@), old(process).threads@),
        r matches Some(res) ==> (table_models(final(process).mappings@), res) == add_stacks(
            table_models(old(process).mappings@),
            old(process).threads@,
        ),
        final(process).architecture == old(process).architecture,
        final(process).threads == old(process).threads,
        final(process).auxv == old(process).auxv,
        final(process).process_info == old(process).process_info,
        final(process).crashing_tid == old(process).crashing_tid,
        final(process).exception_context == old(process).exception_context,
        final(process).fatal_signal == old(process).fatal_signal,
        final(process).dso_debug == old(process).dso_debug,
        final(process).signatures == old(process).signatures,
{
    let ghost m0 = table_models(process.mappings@);
    let ghost ts = process.threads@;
    let n = process.threads.len();
    let mut i: usize = 0;
    assert(ts.take(0) =~= Seq::<ThreadSnapshot>::empty());
    while i < n
        invariant
            i <= n,
            n == ts.len(),
            ts == process.threads@,
            !stacks_underflow(m0, ts.take(i as int)),
            add_stacks(m0, ts.take(i as int)).1 is Ok,
            table_models(process.mappings@) == add_stacks(m0, ts.take(i as int)).0,
            process.architecture == old(process).architecture,
            process.threads == old(process).threads,
            process.auxv == old(process).auxv,
            process.process_info == old(process).process_info,
            process.crashing_tid == old(process).crashing_tid,
            process.exception_context == old(process).exception_context,
            process.fatal_signal == old(process).fatal_signal,
            process.dso_debug == old(process).dso_debug,
            process.signatures == old(process).signatures,
            m0 == table_models(old(process).mappings@),
        decreases n - i,
    {
        assert(ts.take(i + 1).drop_last() =~= ts.take(i as int));
        assert(ts.take(i + 1).last() == ts[i as int]);
        if process.threads[i].stack.len() > 0 {
            if data_would_underflow(
                &process.mappings,
                process.threads[i].stack.as_slice(),
                process.threads[i].stack_address,
                DEFAULT_PAGE_SIZE,
            ) {
                proof {
                    lemma_stacks_underflow_prefix(m0, ts, i + 1);
                }
                return None;
            }
            let r = add_data_to_mapping(
                &mut process.mappings,
                process.threads[i].stack.as_slice(),
                process.threads[i].stack_address,
                DEFAULT_PAGE_SIZE,
            );
            if r.is_err() {
                proof {
                    lemma_add_stacks_error_sticks(m0, ts, i + 1);
                    lemma_no_underflow_after_error(m0, ts, i + 1);
                }
                return Some(r);
            }
        }
        i = i + 1;
    }
    assert(ts.take(n as int) =~= ts);
    proof {
        lemma_ok_unit(add_stacks(m0, ts).1);
    }
    Some(Ok(()))
}

/// Whether adding `data` at `address` would underflow (see
/// [`add_data_underflows`]).
pub fn data_would_underflow(
    mappings: &BTreeMap<u64, Mapping>,
    data: &[u8],
    address: u64,
    page_size: u64,
) -> (b: bool)
    ensures
        b == add_data_underflows(table_models(mappings@), data@, address, page_size),
{
    broadcast use vstd::std_specs::btree::group_btree_axioms;

    proof {
        lemma_u64_keys_ordered();
    }
    if page_size == 0 || page_size as u128 > usize::MAX as u128 {
        return false;
    }
    let prefix = address % page_size;
    assert(prefix <= address) by (nonlinear_arith)
        requires
            prefix == address % page_size,
            page_size > 0,
    ;
    let aligned = address - prefix;
    let total: u128 = prefix as u128 + data.len() as u128;
    let pad: u128 = (page_size as u128 - total % page_size as u128) % page_size as u128;
    if total + pad > usize::MAX as u128 {
        return false;
    }
    match find_covering_key(mappings, address) {
        Some(key) => match mappings.get(&key) {
            Some(m) => m.filename.is_some() && aligned < key,
            None => false,
        },
        None => false,
    }
}

/// Whether the link map ends within 64-bit addresses (see
/// [`link_map_blob_fits`]).
fn link_map_fits(arch: Architecture, dso: &DsoDebug, signatures: &BTreeMap<u64, String>) -> (b: bool)
    ensures
        b == link_map_blob_fits(*dso, signatures@, arch.spec_long_size()),
{
    let word = arch.long_size();
    let ghost es = dso.link_map@;
    let ghost names = entry_names(es, signatures@);
    let n = dso.link_map.len();
    let mut off: u128 = if arch.is_64bit() {
        40
    } else {
        20
    };
    let mut i: usize = 0;
    while i < n
        invariant
            i <= n,
            n == es.len(),
            es == dso.link_map@,
            names == entry_names(es, signatures@),
            word == arch.spec_long_size(),
            word == 8 || word == 4,
            off == record_offset(names, word, i as int),
            LINK_MAP_ADDR + off <= u64::MAX,
        decreases n - i,
    {
        let filename = name_for(&dso.link_map[i], signatures);
        let len = filename.as_str().as_bytes().len();
        assert(vstd::utf8::encode_utf8(filename@) == names[i as int]);
        assert(len & 7 == len % 8 && len & 7 < 8) by (bit_vector);
        let block: u128 = len as u128 + 8 - (len & 7) as u128;
        off = off + 5 * word as u128 + block;
        proof {
            lemma_record_offset_monotone(names, word, i + 1, n as int);
        }
        if LINK_MAP_ADDR as u128 + off > u64::MAX as u128 {
            return false;
        }
        i = i + 1;
    }
    true
}

/// After the stacks are added successfully, the last thread's stack, when
/// it has bytes, is in the table: the mapping at its page-aligned address
/// holds the stack at the address's offset within that page; a thread
/// without stack bytes leaves the table as the threads before it did.
pub proof fn lemma_last_stack_added(m: Map<u64, MappingModel>, ts: Seq<ThreadSnapshot>)
    requires
        ts.len() > 0,
        add_stacks(m, ts).1 is Ok,
    ensures
        ({
            let t = ts.last();
            let table = add_stacks(m, ts).0;
            let aligned = page_floor(t.stack_address, DEFAULT_PAGE_SIZE);
            let prefix = t.stack_address - aligned;
            &&& t.stack@.len() > 0 ==> {
                &&& table.contains_key(aligned)
                &&& table[aligned].start_address == aligned
                &&& table[aligned].data.subrange(prefix, prefix + t.stack@.len()) == t.stack@
            }
            &&& t.stack@.len() == 0 ==> add_stacks(m, ts) == add_stacks(m, ts.drop_last())
        }),
{
    let t = ts.last();
    let prev = add_stacks(m, ts.drop_last());
    if t.stack@.len() > 0 {
        assert(prev.1 is Ok);
        lemma_added_data_page_aligned(prev.0, t.stack@, t.stack_address, DEFAULT_PAGE_SIZE);
    }
}

/// With dynamic-linker data, a successful pass places the rebuilt link map
/// at [`LINK_MAP_ADDR`] (the page there holds the blob from its start), and,
/// with a captured `_DYNAMIC` array at a known address, the array with its
/// `DT_DEBUG` value patched to that address at the array's own address.
pub proof fn lemma_augment_with_dso(p: CrashedProcess)
    requires
        has_dso_info(p.dso_debug),
        augment_spec(p).1 is Ok,
    ensures
        ({
            let word = p.architecture.spec_long_size();
            let table = augment_spec(p).0;
            let d = p.dso_debug;
            &&& link_map_blob(d, p.signatures@, word) is Ok
            &&& (d.dynamic_data@.len() == 0 || d.dynamic == 0) ==> {
                let b = link_map_blob(d, p.signatures@, word)->Ok_0;
                &&& table.contains_key(LINK_MAP_ADDR)
                &&& table[LINK_MAP_ADDR].data.subrange(0, b.len() as int) == b
            }
            &&& (d.dynamic_data@.len() > 0 && d.dynamic != 0) ==> {
                let aligned = page_floor(d.dynamic, DEFAULT_PAGE_SIZE);
                let prefix = d.dynamic - aligned;
                &&& patched_dynamic(d.dynamic_data@, p.architecture.spec_is_64bit(), LINK_MAP_ADDR)
                    matches Ok(dd) && table.contains_key(aligned) && table[aligned].data.subrange(
                    prefix,
                    prefix + dd.len(),
                ) == dd
            }
        }),
{
    let word = p.architecture.spec_long_size();
    let st = add_stacks(table_models(p.mappings@), p.threads@);
    let d = p.dso_debug;
    assert(st.1 is Ok);
    let b = link_map_blob(d, p.signatures@, word)->Ok_0;
    let lm = add_data_spec(st.0, b, LINK_MAP_ADDR, DEFAULT_PAGE_SIZE);
    assert(lm.1 is Ok);
    lemma_added_data_page_aligned(st.0, b, LINK_MAP_ADDR, DEFAULT_PAGE_SIZE);
    assert(page_floor(LINK_MAP_ADDR, DEFAULT_PAGE_SIZE) == LINK_MAP_ADDR);
    if d.dynamic_data@.len() > 0 && d.dynamic != 0 {
        let dd = patched_dynamic(d.dynamic_data@, p.architecture.spec_is_64bit(), LINK_MAP_ADDR)->Ok_0;
        lemma_added_data_page_aligned(lm.0, dd, d.dynamic, DEFAULT_PAGE_SIZE);
    }
}

/// Threads without stack bytes add nothing.
proof fn lemma_add_stacks_empty(m: Map<u64, MappingModel>, ts: Seq<ThreadSnapshot>)
    requires
        forall|i: int| 0 <= i < ts.len() ==> (#[trigger] ts[i]).stack@.len() == 0,
    ensures
        add_stacks(m, ts) == (m, Ok::<(), Md2CoreError>(())),
    decreases ts.len(),
{
    if ts.len() > 0 {
        assert forall|i: int| 0 <= i < ts.drop_last().len() implies (
        #[trigger] ts.drop_last()[i]).stack@.len() == 0 by {
            assert(ts.drop_last()[i] == ts[i]);
        }
        lemma_add_stacks_empty(m, ts.drop_last());
        assert(ts.last() == ts[ts.len() - 1]);
    }
}

/// Without dynamic-linker data the pass only adds the threads' non-empty
/// stacks, in thread order; with no stack bytes either, it succeeds and
/// leaves the mapping table as it was.
pub proof fn lemma_augment_without_dso(p: CrashedProcess)
    requires
        !has_dso_info(p.dso_debug),
    ensures
        augment_spec(p) == add_stacks(table_models(p.mappings@), p.threads@),
        (forall|i: int| 0 <= i < p.threads@.len() ==> (#[trigger] p.threads@[i]).stack@.len() == 0)
            ==> augment_spec(p) == (table_models(p.mappings@), Ok::<(), Md2CoreError>(())),
{
    if forall|i: int| 0 <= i < p.threads@.len() ==> (#[trigger] p.threads@[i]).stack@.len() == 0 {
        lemma_add_stacks_empty(table_models(p.mappings@), p.threads@);
    }
}

/// Performs the augmentation pass like [`augment_process`], where the pass
/// can be performed: `None` exactly on the processes on which it would
/// underflow or overflow (see [`augment_panics`]); the mapping table then
/// holds the additions made before that point.
pub fn augment_process_checked(process: &mut CrashedProcess) -> (r: Option<Result<(), Md2CoreError>>)
    ensures
        r is None <==> augment_panics(*old(process)),
        r matches Some(res) ==> (table_models(final(process).mappings@), res) == augment_spec(
            *old(process),
        ),
        final(process).architecture == old(process).architecture,
        final(process).threads == old(process).threads,
        final(process).auxv == old(process).auxv,
        final(process).process_info == old(process).process_info,
        final(process).crashing_tid == old(process).crashing_tid,
        final(process).exception_context == old(process).exception_context,
        final(process).fatal_signal == old(process).fatal_signal,
        final(process).dso_debug == old(process).dso_debug,
        final(process).signatures == old(process).signatures,
{
    let ghost p0 = *process;
    let arch = process.architecture;
    match add_thread_stacks(process) {
        None => {
            return None;
        },
        Some(Err(e)) => {
            return Some(Err(e));
        },
        Some(Ok(())) => {},
    }
    proof {
        lemma_ok_unit(add_stacks(table_models(p0.mappings@), p0.threads@).1);
    }
    let dso = &process.dso_debug;
    if !(dso.version != 0 || dso.link_map.len() > 0 || dso.dynamic_data.len() > 0) {
        return Some(Ok(()));
    }
    if !link_map_fits(arch, &process.dso_debug, &process.signatures) {
        return None;
    }
    let blob = match build_link_map_blob(arch, &process.dso_debug, &process.signatures) {
        Ok(b) => b,
        Err(e) => {
            return Some(Err(e));
        },
    };
    if data_would_underflow(&process.mappings, blob.as_slice(), LINK_MAP_ADDR, DEFAULT_PAGE_SIZE) {
        return None;
    }
    let added = add_data_to_mapping(
        &mut process.mappings,
        blob.as_slice(),
        LINK_MAP_ADDR,
        DEFAULT_PAGE_SIZE,
    );
    if added.is_err() {
        return Some(added);
    }
    proof {
        lemma_ok_unit(added);
    }
    if process.dso_debug.dynamic_data.len() > 0 && process.dso_debug.dynamic != 0 {
        let mut dyn_data = process.dso_debug.dynamic_data.clone();
        assert(dyn_data@ == p0.dso_debug.dynamic_data@);
        match patch_dt_debug(arch, &mut dyn_data, LINK_MAP_ADDR) {
            Ok(()) => {},
            Err(e) => {
                return Some(Err(e));
            },
        }
        if data_would_underflow(
            &process.mappings,
            dyn_data.as_slice(),
            process.dso_debug.dynamic,
            DEFAULT_PAGE_SIZE,
        ) {
            return None;
        }
        return Some(
            add_data_to_mapping(
                &mut process.mappings,
                dyn_data.as_slice(),
                process.dso_debug.dynamic,
                DEFAULT_PAGE_SIZE,
            ),
        );
    }
    Some(Ok(()))
}

/// Performs the augmentation pass (see [`augment_spec`]): injects each
/// thread's stack bytes, rebuilds an `r_debug` + `link_map` blob at
/// [`LINK_MAP_ADDR`], and injects the captured `_DYNAMIC` array with its
/// `DT_DEBUG` entry pointing at that blob.
pub fn augment_process(process: &mut CrashedProcess) -> (r: Result<(), Md2CoreError>)
    requires
        !augment_panics(*old(process)),
    ensures
        (table_models(final(process).mappings@), r) == augment_spec(*old(process)),
        final(process).architecture == old(process).architecture,
        final(process).threads == old(process).threads,
        final(process).auxv == old(process).auxv,
        final(process).process_info == old(process).process_info,
        final(process).crashing_tid == old(process).crashing_tid,
        final(process).exception_context == old(process).exception_context,
        final(process).fatal_signal == old(process).fatal_signal,
        final(process).dso_debug == old(process).dso_debug,
        final(process).signatures == old(process).signatures,
{
    match augment_process_checked(process) {
        Some(r) => r,
        None => Ok(()),
    }
}

} // verus!
