//! Decoding of Sponge schematic NBT (`Width`, `Height`, `Length`, `Palette`,
//! `BlockData`) into a voxel grid.
use vstd::prelude::*;
use std::collections::HashMap;
use vstd::string::*;
use crate::properties::Properties;
use crate::text::{first_index_of, trim_end_char, chars_of, find_in};
use crate::voxel::{Block, BlockView, VoxelMap, VoxelMapView, cell_view};

verus! {

/// An NBT value, as far as schematics are read: the integer and byte-array
/// tags, compounds as their entries in order, and every other tag as `Other`.
pub enum NbtValue {
    Short(i16),
    Int(i32),
    ByteArray(Vec<i8>),
    Compound(Vec<(String, NbtValue)>),
    Other,
}

/// An NBT value as a mathematical tree: a compound is a map from entry names
/// to values, so the order in which its entries were listed is forgotten.
pub enum NbtTree {
    Short(i16),
    Int(i32),
    ByteArray(Seq<i8>),
    Compound(Map<Seq<char>, NbtTree>),
    Other,
}

/// The tree an `NbtValue` stands for.
pub open spec fn nbt_tree(v: NbtValue) -> NbtTree
    decreases v, 0int,
{
    match v {
        NbtValue::Short(s) => NbtTree::Short(s),
        NbtValue::Int(i) => NbtTree::Int(i),
        NbtValue::ByteArray(a) => NbtTree::ByteArray(a@),
        NbtValue::Compound(es) => NbtTree::Compound(compound_tree(es@)),
        NbtValue::Other => NbtTree::Other,
    }
}

/// The map of a compound's entries; of two entries with one name, the later
/// one counts.
pub open spec fn compound_tree(es: Seq<(String, NbtValue)>) -> Map<Seq<char>, NbtTree>
    decreases es, 1int,
{
    if es.len() == 0 {
        Map::empty()
    } else {
        compound_tree(es.drop_last()).insert(es.last().0@, nbt_tree(es.last().1))
    }
}

/// The value of the first entry named `key`.
pub open spec fn entry(entries: Seq<(String, NbtValue)>, key: Seq<char>) -> Option<NbtValue>
    decreases entries.len(),
{
    if entries.len() == 0 {
        None
    } else if entries[0].0@ == key {
        Some(entries[0].1)
    } else {
        entry(entries.drop_first(), key)
    }
}

/// The entry named `key` as an `i32`, when it is a `Short` or an `Int`.
pub open spec fn int_entry(entries: Seq<(String, NbtValue)>, key: Seq<char>) -> Option<i32> {
    match entry(entries, key) {
        Some(NbtValue::Short(s)) => Some(s as i32),
        Some(NbtValue::Int(i)) => Some(i),
        _ => None,
    }
}

/// Adds one `key=value` pair to a property map; a piece without `=` or with
/// an empty key adds nothing.
pub open spec fn add_property(m: Map<Seq<char>, Seq<char>>, piece: Seq<char>) -> Map<Seq<char>, Seq<char>> {
    match first_index_of(piece, '=') {
        Some(j) => {
            if j > 0 {
                m.insert(piece.take(j), piece.skip(j + 1))
            } else {
                m
            }
        },
        None => m,
    }
}

/// Adds the comma-separated `key=value` pieces of `s`, in order, to `m`.
pub open spec fn add_properties(m: Map<Seq<char>, Seq<char>>, s: Seq<char>) -> Map<Seq<char>, Seq<char>>
    decreases s.len(),
{
    match first_index_of(s, ',') {
        Some(i) => {
            if 0 <= i < s.len() {
                add_properties(add_property(m, s.take(i)), s.skip(i + 1))
            } else {
                m
            }
        },
        None => add_property(m, s),
    }
}

/// The block a palette key such as `minecraft:oak_slab[half=top,waterlogged=false]`
/// stands for: the name before the first `[`, and the properties listed
/// between that `[` and the next one (or the end), trailing `]`s removed.
pub open spec fn palette_block(key: Seq<char>) -> BlockView {
    let name = match first_index_of(key, '[') {
        Some(i) => key.take(i),
        None => key,
    };
    let inner = match first_index_of(key, '[') {
        Some(i) => {
            let rest = key.skip(i + 1);
            match first_index_of(rest, '[') {
                Some(j) => rest.take(j),
                None => rest,
            }
        },
        None => Seq::empty(),
    };
    BlockView { name, properties: add_properties(Map::empty(), trim_end_char(inner, ']')) }
}

/// `s` does not hold `c`.
pub open spec fn lacks(s: Seq<char>, c: char) -> bool {
    forall|i: int| 0 <= i < s.len() ==> s[i] != c
}

pub proof fn lemma_first_index_after(a: Seq<char>, b: Seq<char>, c: char)
    requires
        lacks(a, c),
    ensures
        first_index_of(a + b, c) == (match first_index_of(b, c) {
            Some(i) => Some(i + a.len()),
            None => None,
        }),
    decreases a.len(),
{
    if a.len() > 0 {
        assert((a + b).drop_first() =~= a.drop_first() + b);
        lemma_first_index_after(a.drop_first(), b, c);
    } else {
        assert(a + b =~= b);
    }
}

proof fn lemma_first_index_none(s: Seq<char>, c: char)
    requires
        lacks(s, c),
    ensures
        (first_index_of(s, c) is None),
    decreases s.len(),
{
    if s.len() > 0 {
        lemma_first_index_none(s.drop_first(), c);
    }
}

/// How the pairs of a palette key are read: a piece `k=v` with a key `k`
/// that is not empty and holds no `=` sets `k` to `v` (everything after the
/// first `=`, later pieces overriding earlier ones); a piece without `=`, or
/// with an empty key, sets nothing; pieces are separated by commas and read
/// from left to right.
pub proof fn law_property_pairs(m: Map<Seq<char>, Seq<char>>, k: Seq<char>, v: Seq<char>, rest: Seq<char>)
    ensures
        k.len() > 0 && lacks(k, '=') ==> add_property(m, k + seq!['='] + v) == m.insert(k, v),
        lacks(k, '=') ==> add_property(m, k) == m,
        add_property(m, seq!['='] + v) == m,
        lacks(k, ',') ==> add_properties(m, k + seq![','] + rest) == add_properties(add_property(m, k), rest),
        lacks(k, ',') ==> add_properties(m, k) == add_property(m, k),
{
    assert(first_index_of(seq!['='] + v, '=') == Some(0int));
    if lacks(k, '=') {
        lemma_first_index_after(k, seq!['='] + v, '=');
    }
    let piece = k + seq!['='] + v;
    assert(piece =~= k + (seq!['='] + v));
    assert(piece.take(k.len() as int) =~= k);
    assert(piece.skip(k.len() as int + 1) =~= v);
    if lacks(k, '=') {
        lemma_first_index_none(k, '=');
    }
    assert(first_index_of(seq![','] + rest, ',') == Some(0int));
    if lacks(k, ',') {
        lemma_first_index_after(k, seq![','] + rest, ',');
    }
    let list = k + seq![','] + rest;
    assert(list =~= k + (seq![','] + rest));
    assert(list.take(k.len() as int) =~= k);
    assert(list.skip(k.len() as int + 1) =~= rest);
    if lacks(k, ',') {
        lemma_first_index_none(k, ',');
    }
}

/// Palette properties are parsed from the block key: a key that is a name
/// alone stands for that name without properties, and a key
/// `name[pairs]` (the name and the pairs free of `[`, the pairs not ending
/// in `]`) stands for that name with the properties of the comma-separated
/// `key=value` pairs, as `add_properties` reads them.
pub proof fn law_palette_key_parts(name: Seq<char>, pairs: Seq<char>)
    requires
        lacks(name, '['),
        lacks(pairs, '['),
        pairs.len() == 0 || pairs.last() != ']',
    ensures
        palette_block(name) == (BlockView { name, properties: Map::empty() }),
        palette_block(name + seq!['['] + pairs + seq![']']) == (BlockView {
            name,
            properties: add_properties(Map::empty(), pairs),
        }),
{
    lemma_first_index_none(name, '[');
    assert(first_index_of(Seq::<char>::empty(), ']') is None);
    assert(trim_end_char(Seq::<char>::empty(), ']') =~= Seq::<char>::empty());
    assert(add_properties(Map::empty(), Seq::<char>::empty()) =~= Map::<Seq<char>, Seq<char>>::empty()) by {
        assert(first_index_of(Seq::<char>::empty(), ',') is None);
        assert(first_index_of(Seq::<char>::empty(), '=') is None);
    }
    let key = name + seq!['['] + pairs + seq![']'];
    let tail = seq!['['] + pairs + seq![']'];
    assert(key =~= name + tail);
    lemma_first_index_after(name, tail, '[');
    assert(first_index_of(tail, '[') == Some(0int));
    assert(key.take(name.len() as int) =~= name);
    let rest = key.skip(name.len() as int + 1);
    assert(rest =~= pairs + seq![']']);
    lemma_first_index_none(pairs + seq![']'], '[');
    assert((pairs + seq![']']).drop_last() =~= pairs);
    assert(trim_end_char(pairs + seq![']'], ']') == trim_end_char(pairs, ']'));
    assert(trim_end_char(pairs, ']') == pairs);
}

/// The value of the first entry named `key`.
pub fn find_entry<'a>(entries: &'a Vec<(String, NbtValue)>, key: &str) -> (r: Option<&'a NbtValue>)
    ensures
        match r {
            Some(v) => entry(entries@, key@) == Some(*v),
            None => entry(entries@, key@) is None,
        },
{
    let k = String::from_str(key);
    let mut i: usize = 0;
    proof {
        assert(entries@.skip(0) =~= entries@);
    }
    while i < entries.len()
        invariant
            i <= entries.len(),
            k@ == key@,
            entry(entries@, key@) == entry(entries@.skip(i as int), key@),
        decreases entries.len() - i,
    {
        let ghost rest = entries@.skip(i as int);
        if entries[i].0 == k {
            return Some(&entries[i].1);
        }
        proof {
            assert(rest.drop_first() =~= entries@.skip(i + 1));
        }
        i = i + 1;
    }
    None
}

/// The entry named `key` as an `i32`, when it is a `Short` or an `Int`.
fn get_int(entries: &Vec<(String, NbtValue)>, key: &str) -> (r: Option<i32>)
    ensures
        r == int_entry(entries@, key@),
{
    match find_entry(entries, key) {
        Some(NbtValue::Short(s)) => Some(*s as i32),
        Some(NbtValue::Int(i)) => Some(*i),
        _ => None,
    }
}

/// Adds the `key=value` pair in `s[a..b]` to `props`.
fn add_property_exec(props: &mut Properties, s: &str, chars: &Vec<char>, a: usize, b: usize)
    requires
        chars@ == s@,
        a <= b <= chars@.len(),
    ensures
        final(props)@ == add_property(old(props)@, s@.subrange(a as int, b as int)),
{
    let ghost piece = s@.subrange(a as int, b as int);
    match find_in(chars, '=', a, b) {
        Some(j) => {
            if j > a {
                let k = String::from_str(s.substring_char(a, j));
                let v = String::from_str(s.substring_char(j + 1, b));
                proof {
                    assert(k@ =~= piece.take(j - a));
                    assert(v@ =~= piece.skip(j - a + 1));
                }
                props.insert(k, v);
            }
        },
        None => {},
    }
}

/// The properties listed, comma-separated, in `s`.
fn parse_properties(s: &str) -> (r: Properties)
    ensures
        r@ == add_properties(Map::empty(), s@),
{
    let chars = chars_of(s);
    let n = chars.len();
    let mut props = Properties::new();
    let mut st: usize = 0;
    proof {
        assert(s@.skip(0) =~= s@);
    }
    loop
        invariant
            chars@ == s@,
            n == s@.len(),
            st <= n,
            add_properties(Map::empty(), s@) == add_properties(props@, s@.skip(st as int)),
        decreases n - st,
    {
        let ghost rest = s@.skip(st as int);
        proof {
            assert(chars@.subrange(st as int, n as int) =~= rest);
        }
        match find_in(&chars, ',', st, n) {
            Some(j) => {
                proof {
                    assert(rest.take(j - st) =~= s@.subrange(st as int, j as int));
                    assert(rest.skip(j - st + 1) =~= s@.skip(j + 1));
                }
                add_property_exec(&mut props, s, &chars, st, j);
                st = j + 1;
            },
            None => {
                proof {
                    assert(rest =~= s@.subrange(st as int, n as int));
                }
                add_property_exec(&mut props, s, &chars, st, n);
                return props;
            },
        }
    }
}

/// The block a palette key stands for.
pub fn block_from_palette_key(key: &str) -> (b: Block)
    ensures
        b@ == palette_block(key@),
{
    let chars = chars_of(key);
    let n = chars.len();
    proof {
        assert(chars@.subrange(0, n as int) =~= key@);
    }
    match find_in(&chars, '[', 0, n) {
        None => {
            let name = String::from_str(key);
            let properties = parse_properties("");
            proof {
                reveal_strlit("");
                assert(trim_end_char(Seq::<char>::empty(), ']') =~= Seq::<char>::empty());
            }
            Block { name, properties }
        },
        Some(i) => {
            let name = String::from_str(key.substring_char(0, i));
            let ghost rest = key@.skip(i + 1);
            proof {
                assert(chars@.subrange(i + 1, n as int) =~= rest);
            }
            let j = match find_in(&chars, '[', i + 1, n) {
                Some(j) => j,
                None => n,
            };
            let ghost inner = key@.subrange(i + 1, j as int);
            let mut e = j;
            while e > i + 1 && chars[e - 1] == ']'
                invariant
                    chars@ == key@,
                    i + 1 <= e <= j <= n,
                    n == key@.len(),
                    inner == key@.subrange(i + 1, j as int),
                    trim_end_char(inner, ']') == trim_end_char(key@.subrange(i + 1, e as int), ']'),
                decreases e,
            {
                proof {
                    assert(key@.subrange(i + 1, e as int).drop_last() =~= key@.subrange(i + 1, e - 1));
                }
                e = e - 1;
            }
            let props_text = key.substring_char(i + 1, e);
            let properties = parse_properties(props_text);
            proof {
                assert(name@ =~= key@.take(i as int));
                match first_index_of(rest, '[') {
                    Some(k) => {
                        assert(inner =~= rest.take(k));
                    },
                    None => {
                        assert(inner =~= rest);
                    },
                }
            }
            Block { name, properties }
        },
    }
}

/// The palette that a list of `name -> Int(id)` entries gives: each entry
/// with an `Int` value maps the id to the block its key stands for, a later
/// entry for an id replacing an earlier one; other entries are ignored.
pub open spec fn palette_of(es: Seq<(String, NbtValue)>) -> Map<i32, BlockView>
    decreases es.len(),
{
    if es.len() == 0 {
        Map::empty()
    } else {
        let m = palette_of(es.drop_last());
        match es.last().1 {
            NbtValue::Int(id) => m.insert(id, palette_block(es.last().0@)),
            _ => m,
        }
    }
}

/// The palette of a schematic: its `Palette` compound, or an empty one.
pub open spec fn schematic_palette(es: Seq<(String, NbtValue)>) -> Map<i32, BlockView> {
    match entry(es, "Palette"@) {
        Some(NbtValue::Compound(p)) => palette_of(p@),
        _ => Map::empty(),
    }
}

/// The blocks of a palette seen as values.
pub open spec fn palette_view(p: Map<i32, Block>) -> Map<i32, BlockView> {
    p.map_values(|b: Block| b@)
}

/// The palette of a schematic's entries.
fn read_palette(entries: &Vec<(String, NbtValue)>) -> (r: HashMap<i32, Block>)
    ensures
        palette_view(r@) == schematic_palette(entries@),
{
    broadcast use vstd::std_specs::hash::group_hash_axioms;

    let mut pal: HashMap<i32, Block> = HashMap::new();
    assert(palette_view(pal@) =~= Map::<i32, BlockView>::empty());
    match find_entry(entries, "Palette") {
        Some(NbtValue::Compound(p)) => {
            let mut i: usize = 0;
            proof {
                assert(p@.take(0) =~= Seq::<(String, NbtValue)>::empty());
            }
            while i < p.len()
                invariant
                    i <= p.len(),
                    palette_view(pal@) == palette_of(p@.take(i as int)),
                decreases p.len() - i,
            {
                proof {
                    assert(p@.take(i + 1).drop_last() =~= p@.take(i as int));
                }
                match &p[i].1 {
                    NbtValue::Int(id) => {
                        let b = block_from_palette_key(p[i].0.as_str());
                        let ghost before = pal@;
                        let ghost bv = b@;
                        pal.insert(*id, b);
                        assert(palette_view(pal@) =~= palette_view(before).insert(*id, bv));
                    },
                    _ => {},
                }
                i = i + 1;
            }
            proof {
                assert(p@.take(p.len() as int) =~= p@);
            }
        },
        _ => {},
    }
    pal
}

/// Reads one variable-length integer (7 bits a byte, low bits first, high
/// bit set on every byte but the last) at `cursor`, into `val` from bit
/// `shift` on; the result is the value and the position after it. Reading
/// stops at the end of the data.
pub open spec fn read_varint(data: Seq<i8>, cursor: int, val: i32, shift: i32) -> (i32, int)
    decreases data.len() - cursor,
{
    if cursor < 0 || cursor >= data.len() {
        (val, cursor)
    } else {
        let b = data[cursor] as u8;
        let v = val | (((b & 0x7F) as i32) << shift);
        if b & 0x80 == 0 {
            (v, cursor + 1)
        } else {
            read_varint(data, cursor + 1, v, (shift + 7) as i32)
        }
    }
}

/// Reading the integer at `cursor` never shifts by 32 bits or more, that is,
/// it ends within five bytes or at the end of the data.
pub open spec fn varint_fits(data: Seq<i8>, cursor: int, shift: i32) -> bool
    decreases data.len() - cursor,
{
    if cursor < 0 || cursor >= data.len() {
        true
    } else {
        0 <= shift < 32 && ((data[cursor] as u8) & 0x80 == 0 || varint_fits(
            data,
            cursor + 1,
            (shift + 7) as i32,
        ))
    }
}

/// The `n` bytes from `c` form one variable-length integer: each but the
/// last has its high bit set, and the last has it clear or ends the data
/// (a cut-off integer counts with the bytes present).
pub open spec fn is_varint(data: Seq<i8>, c: int, n: int) -> bool {
    &&& 1 <= n
    &&& 0 <= c
    &&& c + n <= data.len()
    &&& forall|i: int| 0 <= i < n - 1 ==> (#[trigger] data[c + i] as u8) & 0x80 != 0
    &&& ((data[c + n - 1] as u8) & 0x80 == 0 || c + n == data.len())
}

/// The number the `n` bytes from `c` spell in base 128, low digits first:
/// the low 7 bits of each byte are one digit.
pub open spec fn base_128(data: Seq<i8>, c: int, n: int) -> int
    decreases n,
{
    if n <= 0 {
        0
    } else {
        ((data[c] as u8) & 0x7F) as int + 128 * base_128(data, c + 1, n - 1)
    }
}

/// `128` to the power `j`, for the digit positions of an `i32` read.
pub open spec fn pow128(j: int) -> int {
    if j == 0 {
        1
    } else if j == 1 {
        128
    } else if j == 2 {
        16384
    } else if j == 3 {
        2097152
    } else {
        268435456
    }
}

proof fn lemma_varint_digit(val: i32, d: u8, j: int, v: i32)
    requires
        0 <= j <= 4,
        0 <= val < pow128(j),
        d < 128,
        v == val | ((d as i32) << ((7 * j) as i32)),
    ensures
        v == (val + pow128(j) * d) as i32,
        j < 4 ==> v == val + pow128(j) * d,
{
    if j == 0 {
        assert(v == val + d) by (bit_vector)
            requires
                v == val | ((d as i32) << 0i32),
                0 <= val < 1,
                d < 128,
        ;
    } else if j == 1 {
        assert(v == val + 128 * d) by (bit_vector)
            requires
                v == val | ((d as i32) << 7i32),
                0 <= val < 128,
                d < 128,
        ;
    } else if j == 2 {
        assert(v == val + 16384 * d) by (bit_vector)
            requires
                v == val | ((d as i32) << 14i32),
                0 <= val < 16384,
                d < 128,
        ;
    } else if j == 3 {
        assert(v == val + 2097152 * d) by (bit_vector)
            requires
                v == val | ((d as i32) << 21i32),
                0 <= val < 2097152,
                d < 128,
        ;
    } else {
        assert(v == (val + 268435456 * d) as i32) by (bit_vector)
            requires
                v == val | ((d as i32) << 28i32),
                0 <= val < 268435456,
                d < 128,
        ;
    }
}

proof fn lemma_varint_from(data: Seq<i8>, c: int, n: int, val: i32, j: int)
    requires
        is_varint(data, c, n),
        0 <= j,
        j + n <= 5,
        0 <= val < pow128(j),
    ensures
        read_varint(data, c, val, (7 * j) as i32) == ((val + pow128(j) * base_128(data, c, n)) as i32, c + n),
    decreases n,
{
    let b = data[c] as u8;
    let d = b & 0x7F;
    let shift = (7 * j) as i32;
    let v = val | ((d as i32) << shift);
    assert(d < 128) by (bit_vector)
        requires
            d == b & 0x7F,
    ;
    assert(data[c + 0] == data[c]);
    lemma_varint_digit(val, d, j, v);
    if n == 1 {
        assert(base_128(data, c + 1, 0) == 0);
        assert(base_128(data, c, 1) == d as int);
        if b & 0x80 != 0 {
            assert(c + 1 == data.len());
            assert(read_varint(data, c + 1, v, (shift + 7) as i32) == (v, c + 1));
        }
    } else {
        assert(b & 0x80 != 0);
        assert(is_varint(data, c + 1, n - 1)) by {
            assert forall|i: int| 0 <= i < n - 2 implies (#[trigger] data[c + 1 + i] as u8) & 0x80 != 0 by {
                assert(data[c + (i + 1)] == data[c + 1 + i]);
            }
            assert(data[c + n - 1] == data[c + 1 + (n - 1) - 1]);
        }
        assert(pow128(j + 1) == 128 * pow128(j));
        assert(v == val + pow128(j) * d);
        assert(0 <= v < pow128(j + 1)) by (nonlinear_arith)
            requires
                v == val + pow128(j) * d,
                0 <= val < pow128(j),
                0 <= d < 128,
                pow128(j + 1) == 128 * pow128(j),
        ;
        lemma_varint_from(data, c + 1, n - 1, v, j + 1);
        let rest = base_128(data, c + 1, n - 1);
        assert(v + pow128(j + 1) * rest == val + pow128(j) * base_128(data, c, n)) by (nonlinear_arith)
            requires
                v == val + pow128(j) * d,
                pow128(j + 1) == 128 * pow128(j),
                base_128(data, c, n) == d + 128 * rest,
        ;
        assert((shift + 7) as i32 == (7 * (j + 1)) as i32);
    }
}

/// Block ids are read as variable-length integers: `n` bytes from `c`
/// that form one (at most five, the most an `i32` read takes) are read as
/// the number their low 7 bits spell in base 128, low digits first, cut to
/// the low 32 bits of an `i32` (so exactly, for ids of at most four bytes),
/// and the next id starts right after them. A cut-off integer at the end of
/// the data counts with the bytes present.
pub proof fn law_varint_reads_base_128(data: Seq<i8>, c: int, n: int)
    requires
        is_varint(data, c, n),
        n <= 5,
    ensures
        read_varint(data, c, 0, 0) == (base_128(data, c, n) as i32, c + n),
        n <= 4 ==> 0 <= base_128(data, c, n) < 268435456,
        n <= 4 ==> read_varint(data, c, 0, 0).0 == base_128(data, c, n),
{
    lemma_varint_from(data, c, n, 0, 0);
    if n <= 4 {
        lemma_base_128_bound(data, c, n);
    }
}

proof fn lemma_base_128_bound(data: Seq<i8>, c: int, n: int)
    requires
        0 <= n <= 4,
    ensures
        0 <= base_128(data, c, n) < pow128(n),
    decreases n,
{
    if n > 0 {
        lemma_base_128_bound(data, c + 1, n - 1);
        let b = data[c] as u8;
        let d = b & 0x7F;
        assert(d < 128) by (bit_vector)
            requires
                d == b & 0x7F,
        ;
        assert(pow128(n) == 128 * pow128(n - 1));
        assert(0 <= d + 128 * base_128(data, c + 1, n - 1) < pow128(n)) by (nonlinear_arith)
            requires
                0 <= d < 128,
                0 <= base_128(data, c + 1, n - 1) < pow128(n - 1),
                pow128(n) == 128 * pow128(n - 1),
        ;
    }
}

/// Up to `count` integers read one after another from `cursor`, stopping at
/// the end of the data.
pub open spec fn decode_ids(data: Seq<i8>, cursor: int, count: int) -> Seq<i32>
    decreases count,
{
    if count <= 0 || cursor < 0 || cursor >= data.len() {
        Seq::empty()
    } else {
        let r = read_varint(data, cursor, 0, 0);
        seq![r.0] + decode_ids(data, r.1, count - 1)
    }
}

/// Every integer that `decode_ids` reads fits.
pub open spec fn ids_fit(data: Seq<i8>, cursor: int, count: int) -> bool
    decreases count,
{
    if count <= 0 || cursor < 0 || cursor >= data.len() {
        true
    } else {
        varint_fits(data, cursor, 0) && ids_fit(data, read_varint(data, cursor, 0, 0).1, count - 1)
    }
}

/// The ids are read one after another: when the bytes at `c` form an
/// integer of `n` bytes (at most five), the ids read from `c` are its value
/// followed by the ids read from right after it; no id is read at or past
/// the end of the data, and never more than `count`.
pub proof fn law_ids_follow_one_another(data: Seq<i8>, c: int, count: int, n: int)
    requires
        0 < count,
        is_varint(data, c, n),
        n <= 5,
    ensures
        decode_ids(data, c, count) == seq![base_128(data, c, n) as i32] + decode_ids(data, c + n, count - 1),
        decode_ids(data, data.len() as int, count).len() == 0,
{
    law_varint_reads_base_128(data, c, n);
}

proof fn lemma_decode_ids_len(data: Seq<i8>, c: int, count: int)
    ensures
        decode_ids(data, c, count).len() <= if count < 0 { 0 } else { count },
    decreases count,
{
    if count > 0 && 0 <= c < data.len() {
        lemma_decode_ids_len(data, read_varint(data, c, 0, 0).1, count - 1);
    }
}

/// The entries of `p` other than the one at `t` give no `Int` the value
/// `id`.
pub open spec fn id_only_at(p: Seq<(String, NbtValue)>, t: int, id: i32) -> bool {
    forall|u: int| 0 <= u < p.len() && u != t ==> (#[trigger] p[u]).1 != NbtValue::Int(id)
}

/// A palette entry whose id no other entry has gives the block of its key.
pub proof fn law_palette_entry_gives_its_block(p: Seq<(String, NbtValue)>, t: int, id: i32)
    requires
        0 <= t < p.len(),
        p[t].1 == NbtValue::Int(id),
        id_only_at(p, t, id),
    ensures
        palette_of(p).contains_key(id),
        palette_of(p)[id] == palette_block(p[t].0@),
    decreases p.len(),
{
    if t < p.len() - 1 {
        let q = p.drop_last();
        assert(q[t] == p[t]);
        assert forall|u: int| 0 <= u < q.len() && u != t implies (#[trigger] q[u]).1 != NbtValue::Int(id) by {
            assert(q[u] == p[u]);
        }
        law_palette_entry_gives_its_block(q, t, id);
        assert(p[p.len() - 1].1 != NbtValue::Int(id));
    }
}

/// The entries of a compound; none for any other value.
pub open spec fn compound_entries(v: NbtValue) -> Seq<(String, NbtValue)> {
    match v {
        NbtValue::Compound(es) => es@,
        _ => Seq::empty(),
    }
}

/// The entries of a schematic's `Palette` compound; none without one.
pub open spec fn palette_entries(es: Seq<(String, NbtValue)>) -> Seq<(String, NbtValue)> {
    match entry(es, "Palette"@) {
        Some(NbtValue::Compound(p)) => p@,
        _ => Seq::empty(),
    }
}

/// The bytes of a schematic's `BlockData`; none without it.
pub open spec fn schematic_data(es: Seq<(String, NbtValue)>) -> Seq<i8> {
    match entry(es, "BlockData"@) {
        Some(NbtValue::ByteArray(d)) => d@,
        _ => Seq::empty(),
    }
}

/// The number of cells of a schematic: `Width * Height * Length`.
pub open spec fn schematic_cells(es: Seq<(String, NbtValue)>) -> int {
    match (int_entry(es, "Width"@), int_entry(es, "Height"@), int_entry(es, "Length"@)) {
        (Some(w), Some(h), Some(l)) => w * h * l,
        _ => 0,
    }
}

/// The block ids a schematic's cells are filled from.
pub open spec fn schematic_ids(es: Seq<(String, NbtValue)>) -> Seq<i32> {
    decode_ids(schematic_data(es), 0, schematic_cells(es))
}

/// Each cell of a decoded schematic (of a cell count that is not negative):
/// cell `i` holds the palette block of the `i`-th id read from `BlockData`,
/// or nothing when no palette entry has that id; cells past the ids read
/// are empty, and ids past the last cell are not read.
pub proof fn law_schematic_cells(data: NbtValue)
    requires
        parsed_schematic(data) is Some,
        0 <= schematic_cells(compound_entries(data)),
    ensures
        ({
            let es = compound_entries(data);
            let mv = parsed_schematic(data).unwrap();
            let ids = schematic_ids(es);
            let n = schematic_cells(es);
            let pal = schematic_palette(es);
            &&& mv.blocks.len() == n
            &&& ids.len() <= n
            &&& forall|i: int|
                0 <= i < n ==> #[trigger] mv.blocks[i] == (if i < ids.len() && pal.contains_key(ids[i]) {
                    Some(pal[ids[i]])
                } else {
                    None
                })
        }),
{
    let es = compound_entries(data);
    lemma_decode_ids_len(schematic_data(es), 0, schematic_cells(es));
}

/// A cell read with the id of a palette entry that no other entry shares
/// holds the block of that entry's key: for a key `name` it is that name
/// without properties, for a key `name[pairs]` (name and pairs free of `[`,
/// the pairs not ending in `]`) that name with the properties of the
/// comma-separated `key=value` pairs.
pub proof fn law_cell_holds_its_palette_block(
    data: NbtValue,
    t: int,
    id: i32,
    i: int,
    name: Seq<char>,
    pairs: Seq<char>,
)
    requires
        parsed_schematic(data) is Some,
        0 <= schematic_cells(compound_entries(data)),
        0 <= t < palette_entries(compound_entries(data)).len(),
        palette_entries(compound_entries(data))[t].1 == NbtValue::Int(id),
        id_only_at(palette_entries(compound_entries(data)), t, id),
        0 <= i < schematic_ids(compound_entries(data)).len(),
        schematic_ids(compound_entries(data))[i] == id,
    ensures
        ({
            let mv = parsed_schematic(data).unwrap();
            let key = palette_entries(compound_entries(data))[t].0@;
            &&& mv.blocks[i] == Some(palette_block(key))
            &&& lacks(name, '[') && key == name ==> mv.blocks[i] == Some(
                BlockView { name, properties: Map::empty() },
            )
            &&& lacks(name, '[') && lacks(pairs, '[') && (pairs.len() == 0 || pairs.last() != ']') && key
                == name + seq!['['] + pairs + seq![']'] ==> mv.blocks[i] == Some(
                BlockView { name, properties: add_properties(Map::empty(), pairs) },
            )
        }),
{
    let es = compound_entries(data);
    let p = palette_entries(es);
    law_schematic_cells(data);
    law_palette_entry_gives_its_block(p, t, id);
    assert(schematic_palette(es) == palette_of(p));
    if lacks(name, '[') && lacks(pairs, '[') && (pairs.len() == 0 || pairs.last() != ']') {
        law_palette_key_parts(name, pairs);
    }
    if lacks(name, '[') {
        lemma_first_index_none(name, '[');
        assert(trim_end_char(Seq::<char>::empty(), ']') =~= Seq::<char>::empty());
        assert(add_properties(Map::empty(), Seq::<char>::empty()) =~= Map::<Seq<char>, Seq<char>>::empty()) by {
            assert(first_index_of(Seq::<char>::empty(), ',') is None);
            assert(first_index_of(Seq::<char>::empty(), '=') is None);
        }
    }
}

/// Reads the integer at `cursor`; `None` when it does not fit.
fn read_varint_at(data: &Vec<i8>, cursor: usize) -> (r: Option<(i32, usize)>)
    requires
        cursor < data@.len(),
    ensures
        r is Some <==> varint_fits(data@, cursor as int, 0),
        r matches Some(p) ==> p.0 == read_varint(data@, cursor as int, 0, 0).0 && p.1
            == read_varint(data@, cursor as int, 0, 0).1 && cursor < p.1 <= data@.len(),
{
    let mut val: i32 = 0;
    let mut shift: i32 = 0;
    let mut cur = cursor;
    loop
        invariant
            cursor < data@.len(),
            cursor <= cur <= data@.len(),
            cur == cursor ==> val == 0 && shift == 0,
            0 <= shift <= 38,
            read_varint(data@, cursor as int, 0, 0) == read_varint(data@, cur as int, val, shift),
            varint_fits(data@, cursor as int, 0) == varint_fits(data@, cur as int, shift),
        decreases data@.len() - cur,
    {
        if cur >= data.len() {
            return Some((val, cur));
        }
        if shift >= 32 {
            return None;
        }
        let b = data[cur] as u8;
        cur = cur + 1;
        val = val | (((b & 0x7F) as i32) << shift);
        if b & 0x80 == 0 {
            return Some((val, cur));
        }
        shift = shift + 7;
    }
}

/// The first `count` block ids of `data`; `None` when one does not fit.
fn decode_block_ids(data: &Vec<i8>, count: usize) -> (r: Option<Vec<i32>>)
    ensures
        r is Some <==> ids_fit(data@, 0, count as int),
        r matches Some(v) ==> v@ == decode_ids(data@, 0, count as int),
{
    let mut ids: Vec<i32> = Vec::new();
    let mut cursor: usize = 0;
    let mut k: usize = 0;
    while k < count
        invariant
            k <= count,
            cursor <= data@.len(),
            ids@ + decode_ids(data@, cursor as int, count - k) == decode_ids(data@, 0, count as int),
            ids_fit(data@, 0, count as int) == ids_fit(data@, cursor as int, count - k),
        decreases count - k,
    {
        if cursor >= data.len() {
            proof {
                assert(ids@ + decode_ids(data@, cursor as int, count - k) =~= ids@);
            }
            return Some(ids);
        }
        match read_varint_at(data, cursor) {
            None => {
                return None;
            },
            Some((v, next)) => {
                proof {
                    let rest = decode_ids(data@, next as int, count - k - 1);
                    assert(ids@.push(v) + rest =~= ids@ + (seq![v] + rest));
                }
                ids.push(v);
                cursor = next;
                k = k + 1;
            },
        }
    }
    proof {
        assert(ids@ + decode_ids(data@, cursor as int, 0) =~= ids@);
    }
    Some(ids)
}

/// The cells of a grid of `n` cells filled from block ids: cell `i` is the
/// palette's block for the `i`-th id, or empty when there is no such id or
/// block.
pub open spec fn decoded_cells(ids: Seq<i32>, n: int, pal: Map<i32, BlockView>) -> Seq<Option<BlockView>> {
    Seq::new(
        n as nat,
        |i: int|
            if i < ids.len() && pal.contains_key(ids[i]) {
                Some(pal[ids[i]])
            } else {
                None
            },
    )
}

/// The voxel map a schematic compound describes: `None` unless it is a
/// compound with `Short` or `Int` entries `Width`, `Height` and `Length` and
/// a `BlockData` byte array; the `Width * Height * Length` cells are filled,
/// in index order, from the block ids that `BlockData` holds, looked up in
/// the `Palette`.
pub open spec fn parsed_schematic(v: NbtValue) -> Option<VoxelMapView> {
    match v {
        NbtValue::Compound(es) => {
            match (int_entry(es@, "Width"@), int_entry(es@, "Height"@), int_entry(es@, "Length"@)) {
                (Some(w), Some(h), Some(l)) => match entry(es@, "BlockData"@) {
                    Some(NbtValue::ByteArray(d)) => {
                        let n = w * h * l;
                        Some(
                            VoxelMapView {
                                width: w as int,
                                height: h as int,
                                length: l as int,
                                blocks: decoded_cells(decode_ids(d@, 0, n), n, schematic_palette(es@)),
                            },
                        )
                    },
                    _ => None,
                },
                _ => None,
            }
        },
        _ => None,
    }
}

/// Decoding a schematic neither overflows nor sizes its grid negatively:
/// `Width * Height` and `Width * Height * Length` fit in `i32`, the latter is
/// not negative, and every block id read fits.
pub open spec fn parse_is_safe(v: NbtValue) -> bool {
    match v {
        NbtValue::Compound(es) => {
            match (int_entry(es@, "Width"@), int_entry(es@, "Height"@), int_entry(es@, "Length"@)) {
                (Some(w), Some(h), Some(l)) => match entry(es@, "BlockData"@) {
                    Some(NbtValue::ByteArray(d)) => {
                        &&& i32::MIN <= w * h <= i32::MAX
                        &&& 0 <= w * h * l <= i32::MAX
                        &&& ids_fit(d@, 0, w * h * l)
                    },
                    _ => true,
                },
                _ => true,
            }
        },
        _ => true,
    }
}

/// The decoded map's dimensions are the schematic's own: its width, height
/// and length are the `Width`, `Height` and `Length` entries, in that
/// order, and it has one cell per `Width * Height * Length` (when that is
/// not negative). Decoding succeeds exactly for a compound with the three
/// dimensions (`Short` or `Int`) and a `BlockData` byte array.
pub proof fn law_decoded_dimensions(data: NbtValue)
    ensures
        (parsed_schematic(data) is Some) <==> ({
            let es = compound_entries(data);
            &&& data is Compound
            &&& int_entry(es, "Width"@) is Some
            &&& int_entry(es, "Height"@) is Some
            &&& int_entry(es, "Length"@) is Some
            &&& entry(es, "BlockData"@) matches Some(NbtValue::ByteArray(_))
        }),
        parsed_schematic(data) matches Some(mv) ==> {
            let es = compound_entries(data);
            &&& int_entry(es, "Width"@) == Some(mv.width as i32) && mv.width == int_entry(es, "Width"@).unwrap()
            &&& int_entry(es, "Height"@) == Some(mv.height as i32) && mv.height == int_entry(es, "Height"@).unwrap()
            &&& int_entry(es, "Length"@) == Some(mv.length as i32) && mv.length == int_entry(es, "Length"@).unwrap()
            &&& mv.width * mv.height * mv.length >= 0 ==> mv.blocks.len() == mv.width * mv.height * mv.length
        },
{
}

/// Decodes a Sponge schematic compound into a voxel map.
pub fn parse_nbt(data: &NbtValue) -> (r: Option<VoxelMap>)
    requires
        parse_is_safe(*data),
    ensures
        match r {
            Some(m) => parsed_schematic(*data) == Some(m@),
            None => parsed_schematic(*data) is None,
        },
        r matches Some(m) ==> m.blocks@.len() == m.width * m.height * m.length,
        r matches Some(m) ==> int_entry(compound_entries(*data), "Width"@) == Some(m.width) && int_entry(
            compound_entries(*data),
            "Height"@,
        ) == Some(m.height) && int_entry(compound_entries(*data), "Length"@) == Some(m.length),
{
    proof {
        law_decoded_dimensions(*data);
    }
    let entries = match data {
        NbtValue::Compound(e) => e,
        _ => {
            return None;
        },
    };
    let width = match get_int(entries, "Width") {
        Some(w) => w,
        None => {
            return None;
        },
    };
    let height = match get_int(entries, "Height") {
        Some(h) => h,
        None => {
            return None;
        },
    };
    let length = match get_int(entries, "Length") {
        Some(l) => l,
        None => {
            return None;
        },
    };
    let palette = read_palette(entries);
    match find_entry(entries, "BlockData") {
        Some(NbtValue::ByteArray(block_data)) => {
            let n = (width * height * length) as usize;
            let ids = match decode_block_ids(block_data, n) {
                Some(v) => v,
                None => {
                    return None;
                },
            };
            let mut blocks: Vec<Option<Block>> = Vec::new();
            let mut i: usize = 0;
            let ghost cells = decoded_cells(ids@, n as int, palette_view(palette@));
            while i < n
                invariant
                    i <= n,
                    cells == decoded_cells(ids@, n as int, palette_view(palette@)),
                    blocks@.len() == i,
                    forall|j: int| 0 <= j < i ==> cell_view(#[trigger] blocks@[j]) == cells[j],
                decreases n - i,
            {
                let cell = if i < ids.len() {
                    match palette.get(&ids[i]) {
                        Some(b) => Some(b.clone()),
                        None => None,
                    }
                } else {
                    None
                };
                blocks.push(cell);
                i = i + 1;
            }
            let r = VoxelMap { width, height, length, blocks };
            proof {
                assert(r@.blocks =~= cells);
            }
            Some(r)
        },
        _ => None,
    }
}

/// Whether `parse_nbt` can decode `data` without overflow: see
/// `parse_is_safe`.
pub fn parse_nbt_is_safe(data: &NbtValue) -> (r: bool)
    ensures
        r == parse_is_safe(*data),
{
    let entries = match data {
        NbtValue::Compound(e) => e,
        _ => {
            return true;
        },
    };
    let (width, height, length) = match (
        get_int(entries, "Width"),
        get_int(entries, "Height"),
        get_int(entries, "Length"),
    ) {
        (Some(w), Some(h), Some(l)) => (w, h, l),
        _ => {
            return true;
        },
    };
    match find_entry(entries, "BlockData") {
        Some(NbtValue::ByteArray(block_data)) => {
            assert(-0x8000_0000_0000_0000 < (width as i64) * (height as i64) < 0x8000_0000_0000_0000)
                by (nonlinear_arith)
                requires
                    i32::MIN <= width <= i32::MAX,
                    i32::MIN <= height <= i32::MAX,
            ;
            let wh = (width as i64) * (height as i64);
            if wh < i32::MIN as i64 || wh > i32::MAX as i64 {
                return false;
            }
            assert(-0x8000_0000_0000_0000 < wh * (length as i64) < 0x8000_0000_0000_0000)
                by (nonlinear_arith)
                requires
                    i32::MIN <= wh <= i32::MAX,
                    i32::MIN <= length <= i32::MAX,
            ;
            let n = wh * (length as i64);
            if n < 0 || n > i32::MAX as i64 {
                return false;
            }
            decode_block_ids(block_data, n as usize).is_some()
        },
        _ => true,
    }
}

} // verus!
