//! The headers of substitution and positioning tables: which lookups there are,
//! where their subtables stand, and which format each of those has.

use vstd::prelude::*;

use crate::bytes::{be16, be32, fits, long, word, word_at};
use crate::lookup::SeqRecord;
use crate::tables::resolves;

verus! {

/// Which layout table a lookup comes from.
#[derive(Copy, Clone, PartialEq, Eq, Debug, Structural)]
pub enum Table {
    Gsub,
    Gpos,
}

/// The flag that says a lookup names a set of marks to keep.
pub const USE_MARK_FILTERING_SET: u16 = 0x0010;

/// The formats a subtable may have, over both tables.
#[derive(Copy, Clone, PartialEq, Eq, Debug, Structural)]
pub enum Format {
    SingleDelta,
    SingleList,
    Multiple,
    Alternate,
    Ligature,
    Context1,
    Context2,
    Context3,
    Chain1,
    Chain2,
    Chain3,
    Reverse,
    SinglePos1,
    SinglePos2,
    Pair1,
    Pair2,
    Cursive,
    MarkBase,
    MarkLig,
    MarkMark,
}

/// An array of offsets; empty where it runs past the end.
pub open spec fn offsets_at(data: Seq<u8>, at: int, n: u16) -> Seq<u16> {
    if fits(data, at, 2 * n) {
        Seq::new(n as nat, |i: int| word(data, at + 2 * i))
    } else {
        seq![]
    }
}

/// A count; zero where it lies past the end.
pub open spec fn count_at(data: Seq<u8>, at: int) -> u16 {
    match word_at(data, at) {
        Some(n) => n,
        None => 0,
    }
}

/// An array of nested-lookup records; empty where it runs past the end.
pub open spec fn records_at(data: Seq<u8>, at: int, n: u16) -> Seq<SeqRecord> {
    if fits(data, at, 4 * n) {
        Seq::new(
            n as nat,
            |i: int|
                SeqRecord {
                    seq_index: word(data, at + 4 * i),
                    lookup_index: word(data, at + 4 * i + 2),
                },
        )
    } else {
        seq![]
    }
}

/// Where the list of lookups stands, if there is one.
pub open spec fn lookup_list_at(data: Seq<u8>) -> Option<int> {
    if fits(data, 0, 10) && resolves(data, 0, word(data, 8) as int) && fits(data, word(data, 8) as int, 2) {
        Some(word(data, 8) as int)
    } else {
        None
    }
}

/// How many lookups a table says it has.
pub open spec fn lookup_count_of(data: Seq<u8>) -> u16 {
    match lookup_list_at(data) {
        Some(list) => word(data, list),
        None => 0,
    }
}

/// The lookup type that only points at a subtable of another.
pub open spec fn extension_type(table: Table) -> u16 {
    match table {
        Table::Gsub => 7,
        Table::Gpos => 9,
    }
}

/// The lookup types a table defines.
pub open spec fn known_type(table: Table, ty: u16) -> bool {
    match table {
        Table::Gsub => 1 <= ty <= 8,
        Table::Gpos => 1 <= ty <= 9,
    }
}

/// Where a lookup stands, if it can be read.
pub open spec fn lookup_at(data: Seq<u8>, table: Table, index: u16) -> Option<int> {
    match lookup_list_at(data) {
        None => None,
        Some(list) => {
            let offsets = offsets_at(data, list + 2, word(data, list));
            if index < offsets.len() && resolves(data, list, offsets[index as int] as int) && fits(
                data,
                list + offsets[index as int],
                6,
            ) && known_type(table, word(data, list + offsets[index as int])) {
                Some(list + offsets[index as int])
            } else {
                None
            }
        },
    }
}

/// Why something in a font cannot be read.
#[derive(Copy, Clone, PartialEq, Eq, Debug, Structural)]
pub enum ReadError {
    /// It lies past the end.
    OutOfBounds,
    /// Nothing says where it is.
    NullOffset,
    /// It is of a kind that is not known.
    InvalidFormat(i64),
}

/// Why a lookup that cannot be read cannot be. A list or a lookup whose offset is
/// zero is nowhere; of a lookup, the type is looked at before the rest of its
/// header.
pub open spec fn lookup_error(data: Seq<u8>, table: Table, index: u16) -> ReadError {
    if !fits(data, 0, 10) {
        ReadError::OutOfBounds
    } else if word(data, 8) == 0 {
        ReadError::NullOffset
    } else {
        match lookup_list_at(data) {
            None => ReadError::OutOfBounds,
            Some(list) => {
                let offsets = offsets_at(data, list + 2, word(data, list));
                let at = list + offsets[index as int];
                if index >= offsets.len() {
                    ReadError::OutOfBounds
                } else if offsets[index as int] == 0 {
                    ReadError::NullOffset
                } else if fits(data, at, 2) && !known_type(table, word(data, at)) {
                    ReadError::InvalidFormat(word(data, at) as i64)
                } else {
                    ReadError::OutOfBounds
                }
            },
        }
    }
}

/// The properties of a lookup: its flags, and above them the set of marks to
/// keep where the flags say that it names one.
pub open spec fn props_at(data: Seq<u8>, lookup: int) -> u32 {
    let flag = word(data, lookup + 2);
    if flag & USE_MARK_FILTERING_SET != 0 {
        (flag + count_at(data, lookup + 6 + 2 * word(data, lookup + 4)) * 0x1_0000) as u32
    } else {
        flag as u32
    }
}

/// The offsets of a lookup's subtables.
pub open spec fn subtable_offsets(data: Seq<u8>, lookup: int) -> Seq<u16> {
    offsets_at(data, lookup + 6, word(data, lookup + 4))
}

/// The type and place of what an offset from a lookup leads to, seeing through
/// an extension.
pub open spec fn subtable_site(data: Seq<u8>, table: Table, ty: u16, lookup: int, offset: u16) -> Option<
    (u16, int),
> {
    let at = lookup + offset;
    if !resolves(data, lookup, offset as int) {
        None
    } else if ty != extension_type(table) {
        Some((ty, at))
    } else if fits(data, at, 8) && known_type(table, word(data, at + 2)) && word(data, at + 2)
        != extension_type(table) && resolves(data, at, long(data, at + 4) as int) {
        Some((word(data, at + 2), at + long(data, at + 4)))
    } else {
        None
    }
}

/// The format of a sequence context.
pub open spec fn context_format(data: Seq<u8>, at: int) -> Option<Format> {
    if !fits(data, at, 6) {
        None
    } else if word(data, at) == 1 {
        Some(Format::Context1)
    } else if word(data, at) == 2 && fits(data, at, 8) {
        Some(Format::Context2)
    } else if word(data, at) == 3 {
        Some(Format::Context3)
    } else {
        None
    }
}

/// The format of a chained sequence context.
pub open spec fn chain_format(data: Seq<u8>, at: int) -> Option<Format> {
    if !fits(data, at, 6) {
        None
    } else if word(data, at) == 1 {
        Some(Format::Chain1)
    } else if word(data, at) == 2 && fits(data, at, 12) {
        Some(Format::Chain2)
    } else if word(data, at) == 3 && fits(data, at, 10) {
        Some(Format::Chain3)
    } else {
        None
    }
}

/// The format of the subtable at `at`, if its header can be read. A type with a
/// single format is not asked which it has.
pub open spec fn format_at(data: Seq<u8>, table: Table, ty: u16, at: int) -> Option<Format> {
    if !fits(data, at, 6) {
        None
    } else {
        let format = word(data, at);
        match table {
            Table::Gsub => if ty == 1 {
                if format == 1 {
                    Some(Format::SingleDelta)
                } else if format == 2 {
                    Some(Format::SingleList)
                } else {
                    None
                }
            } else if ty == 2 {
                Some(Format::Multiple)
            } else if ty == 3 {
                Some(Format::Alternate)
            } else if ty == 4 {
                Some(Format::Ligature)
            } else if ty == 5 {
                context_format(data, at)
            } else if ty == 6 {
                chain_format(data, at)
            } else if ty == 8 && fits(data, at, 10) {
                Some(Format::Reverse)
            } else {
                None
            },
            Table::Gpos => if ty == 1 {
                if format == 1 {
                    Some(Format::SinglePos1)
                } else if format == 2 && fits(data, at, 8) {
                    Some(Format::SinglePos2)
                } else {
                    None
                }
            } else if ty == 2 {
                if format == 1 && fits(data, at, 10) {
                    Some(Format::Pair1)
                } else if format == 2 && fits(data, at, 16) {
                    Some(Format::Pair2)
                } else {
                    None
                }
            } else if ty == 3 {
                Some(Format::Cursive)
            } else if ty == 4 && fits(data, at, 12) {
                Some(Format::MarkBase)
            } else if ty == 5 && fits(data, at, 12) {
                Some(Format::MarkLig)
            } else if ty == 6 && fits(data, at, 12) {
                Some(Format::MarkMark)
            } else if ty == 7 {
                context_format(data, at)
            } else if ty == 8 {
                chain_format(data, at)
            } else {
                None
            },
        }
    }
}

/// How many bytes the header of a format takes at least.
pub open spec fn header_bytes(f: Format) -> int {
    match f {
        Format::Context2 | Format::SinglePos2 => 8,
        Format::Chain2 | Format::MarkBase | Format::MarkLig | Format::MarkMark => 12,
        Format::Chain3 | Format::Reverse | Format::Pair1 => 10,
        Format::Pair2 => 16,
        _ => 6,
    }
}

/// A format is only found where its header can be read.
pub proof fn lemma_format_fits(data: Seq<u8>, table: Table, ty: u16, at: int)
    ensures
        format_at(data, table, ty, at) matches Some(f) ==> fits(data, at, header_bytes(f)),
{
}

pub fn read_offsets(data: &[u8], at: usize, n: u16) -> (r: Vec<u16>)
    ensures
        r@ == offsets_at(data@, at as int, n),
{
    let mut out: Vec<u16> = Vec::new();
    if at > data.len() || 2 * n as usize > data.len() - at {
        assert(out@ =~= offsets_at(data@, at as int, n));
        return out;
    }
    let end: usize = data.len();
    let mut i: u16 = 0;
    while i < n
        invariant
            i <= n,
            end == data@.len(),
            fits(data@, at as int, 2 * n),
            out@ == Seq::new(i as nat, |k: int| word(data@, at + 2 * k)),
        decreases n - i,
    {
        let w: u16 = be16(data, at + 2 * i as usize).unwrap();
        out.push(w);
        assert(out@ =~= Seq::new((i + 1) as nat, |k: int| word(data@, at + 2 * k)));
        i += 1;
    }
    out
}

pub fn read_count(data: &[u8], at: usize) -> (r: u16)
    ensures
        r == count_at(data@, at as int),
{
    match be16(data, at) {
        Some(n) => n,
        None => 0,
    }
}

pub fn read_records(data: &[u8], at: usize, n: u16) -> (r: Vec<SeqRecord>)
    ensures
        r@ == records_at(data@, at as int, n),
{
    let mut out: Vec<SeqRecord> = Vec::new();
    if at > data.len() || 4 * n as usize > data.len() - at {
        assert(out@ =~= records_at(data@, at as int, n));
        return out;
    }
    let end: usize = data.len();
    let mut i: u16 = 0;
    while i < n
        invariant
            i <= n,
            end == data@.len(),
            fits(data@, at as int, 4 * n),
            out@ == records_at(data@, at as int, n).take(i as int),
        decreases n - i,
    {
        let seq_index: u16 = be16(data, at + 4 * i as usize).unwrap();
        let lookup_index: u16 = be16(data, at + 4 * i as usize + 2).unwrap();
        out.push(SeqRecord { seq_index, lookup_index });
        assert(out@ =~= records_at(data@, at as int, n).take(i + 1));
        i += 1;
    }
    assert(out@ =~= records_at(data@, at as int, n));
    out
}

/// Where the list of lookups stands.
fn find_lookup_list(data: &[u8]) -> (r: Option<usize>)
    ensures
        r matches Some(at) ==> lookup_list_at(data@) == Some(at as int) && at <= 0xffff,
        r is None ==> lookup_list_at(data@) is None,
{
    if data.len() < 10 {
        return None;
    }
    let off: u16 = be16(data, 8).unwrap();
    let at: usize = off as usize;
    if at != 0 && at <= data.len() && data.len() - at >= 2 {
        Some(at)
    } else {
        None
    }
}

/// How many lookups a table says it has.
pub fn lookup_count(data: &[u8]) -> (n: u16)
    ensures
        n == lookup_count_of(data@),
{
    match find_lookup_list(data) {
        Some(list) => be16(data, list).unwrap(),
        None => 0,
    }
}

/// Where a lookup stands.
pub fn find_lookup(data: &[u8], table: Table, index: u16) -> (r: Result<usize, ReadError>)
    ensures
        r matches Ok(at) ==> lookup_at(data@, table, index) == Some(at as int) && at <= 0x1_fffe,
        r matches Err(e) ==> lookup_at(data@, table, index) is None && e == lookup_error(
            data@,
            table,
            index,
        ),
{
    if data.len() >= 10 && be16(data, 8).unwrap() == 0 {
        return Err(ReadError::NullOffset);
    }
    let list: usize = match find_lookup_list(data) {
        Some(list) => list,
        None => return Err(ReadError::OutOfBounds),
    };
    let count: u16 = be16(data, list).unwrap();
    let offsets = read_offsets(data, list + 2, count);
    if index as usize >= offsets.len() {
        return Err(ReadError::OutOfBounds);
    }
    let off: usize = offsets[index as usize] as usize;
    if off == 0 {
        return Err(ReadError::NullOffset);
    }
    let at: usize = list + off;
    let ty: u16 = match be16(data, at) {
        Some(ty) => ty,
        None => return Err(ReadError::OutOfBounds),
    };
    let known: bool = match table {
        Table::Gsub => 1 <= ty && ty <= 8,
        Table::Gpos => 1 <= ty && ty <= 9,
    };
    if !known {
        return Err(ReadError::InvalidFormat(ty as i64));
    }
    if data.len() - at < 6 {
        return Err(ReadError::OutOfBounds);
    }
    Ok(at)
}

/// The properties of a lookup.
pub fn props_of(data: &[u8], lookup: usize) -> (props: u32)
    requires
        fits(data@, lookup as int, 6),
    ensures
        props == props_at(data@, lookup as int),
{
    let end: usize = data.len();
    let flag: u16 = be16(data, lookup + 2).unwrap();
    let count: u16 = be16(data, lookup + 4).unwrap();
    if flag & USE_MARK_FILTERING_SET != 0 {
        let marks: u16 = if 2 * count as usize <= end - lookup - 6 {
            read_count(data, lookup + 6 + 2 * count as usize)
        } else {
            0
        };
        flag as u32 + marks as u32 * 0x1_0000
    } else {
        flag as u32
    }
}

/// The type and place of what an offset from a lookup leads to.
pub fn find_subtable(data: &[u8], table: Table, ty: u16, lookup: usize, offset: u16) -> (r: Option<
    (u16, usize),
>)
    requires
        lookup <= 0x1_fffe,
        data@.len() <= 0xFFFF_0000,
    ensures
        r matches Some((t, at)) ==> subtable_site(data@, table, ty, lookup as int, offset) == Some(
            (t, at as int),
        ) && at <= data@.len(),
        r is None ==> subtable_site(data@, table, ty, lookup as int, offset) is None,
{
    let at: usize = lookup + offset as usize;
    if offset == 0 || at > data.len() {
        return None;
    }
    let ext: u16 = match table {
        Table::Gsub => 7,
        Table::Gpos => 9,
    };
    if ty != ext {
        return Some((ty, at));
    }
    if data.len() - at < 8 {
        return None;
    }
    let inner: u16 = be16(data, at + 2).unwrap();
    let far: usize = be32(data, at + 4).unwrap() as usize;
    let known: bool = match table {
        Table::Gsub => 1 <= inner && inner <= 8,
        Table::Gpos => 1 <= inner && inner <= 9,
    };
    if known && inner != ext && far != 0 && far <= data.len() - at {
        Some((inner, at + far))
    } else {
        None
    }
}

/// The format of a subtable, if its header can be read.
pub fn read_format(data: &[u8], table: Table, ty: u16, at: usize) -> (r: Option<Format>)
    requires
        at <= data@.len(),
    ensures
        r == format_at(data@, table, ty, at as int),
{
    let left: usize = data.len() - at;
    if left < 6 {
        return None;
    }
    let format: u16 = be16(data, at).unwrap();
    let context = if format == 1 {
        Some(Format::Context1)
    } else if format == 2 && left >= 8 {
        Some(Format::Context2)
    } else if format == 3 {
        Some(Format::Context3)
    } else {
        None
    };
    let chain = if format == 1 {
        Some(Format::Chain1)
    } else if format == 2 && left >= 12 {
        Some(Format::Chain2)
    } else if format == 3 && left >= 10 {
        Some(Format::Chain3)
    } else {
        None
    };
    match table {
        Table::Gsub => {
            if ty == 1 {
                if format == 1 {
                    Some(Format::SingleDelta)
                } else if format == 2 {
                    Some(Format::SingleList)
                } else {
                    None
                }
            } else if ty == 2 {
                Some(Format::Multiple)
            } else if ty == 3 {
                Some(Format::Alternate)
            } else if ty == 4 {
                Some(Format::Ligature)
            } else if ty == 5 {
                context
            } else if ty == 6 {
                chain
            } else if ty == 8 && left >= 10 {
                Some(Format::Reverse)
            } else {
                None
            }
        },
        Table::Gpos => {
            if ty == 1 {
                if format == 1 {
                    Some(Format::SinglePos1)
                } else if format == 2 && left >= 8 {
                    Some(Format::SinglePos2)
                } else {
                    None
                }
            } else if ty == 2 {
                if format == 1 && left >= 10 {
                    Some(Format::Pair1)
                } else if format == 2 && left >= 16 {
                    Some(Format::Pair2)
                } else {
                    None
                }
            } else if ty == 3 {
                Some(Format::Cursive)
            } else if ty == 4 && left >= 12 {
                Some(Format::MarkBase)
            } else if ty == 5 && left >= 12 {
                Some(Format::MarkLig)
            } else if ty == 6 && left >= 12 {
                Some(Format::MarkMark)
            } else if ty == 7 {
                context
            } else if ty == 8 {
                chain
            } else {
                None
            }
        },
    }
}

/// A lookup's properties have its flags in their low half; in their high half is
/// the set of marks that follows the subtables, and nothing where the flags do
/// not say that there is one.
pub proof fn properties_are_flags_and_a_set_of_marks(data: &[u8], lookup: usize, props: u32)
    requires
        fits(data@, lookup as int, 6),
        call_ensures(props_of, (data, lookup), props),
    ensures
        props % 0x1_0000 == word(data@, lookup + 2),
        (word(data@, lookup + 2) / 0x10) % 2 == 0 ==> props / 0x1_0000 == 0,
        ({
            let after = lookup + 6 + 2 * word(data@, lookup + 4);
            (word(data@, lookup + 2) / 0x10) % 2 == 1 && after + 2 <= data@.len() ==> props / 0x1_0000 == word(
                data@,
                after,
            )
        }),
{
    let flag = word(data@, lookup + 2);
    assert((flag & 0x10 != 0) <==> ((flag / 0x10) % 2 == 1)) by (bit_vector);
}

/// A lookup stands where the list says, counted from the list, and is of a type
/// that its table has. What is not read is refused for what is wrong with it
/// first.
pub proof fn a_lookup_stands_where_the_list_says(
    data: &[u8],
    table: Table,
    index: u16,
    count: u16,
    r: Result<usize, ReadError>,
)
    requires
        data@.len() >= 10,
        call_ensures(lookup_count, (data,), count),
        call_ensures(find_lookup, (data, table, index), r),
    ensures
        r is Ok ==> ({
            let list = word(data@, 8);
            let at = r->Ok_0;
            let ty = word(data@, at as int);
            &&& count == word(data@, list as int)
            &&& index < count
            &&& at == list + word(data@, list + 2 + 2 * index)
            &&& 1 <= ty
            &&& table == Table::Gsub ==> ty <= 8
            &&& table == Table::Gpos ==> ty <= 9
            &&& at + 6 <= data@.len()
        }),
        word(data@, 8) == 0 ==> r == Err::<usize, ReadError>(ReadError::NullOffset) && count == 0,
        r is Err && r->Err_0 is InvalidFormat ==> ({
            let ty = r->Err_0->InvalidFormat_0;
            ty == 0 || ty > 9 || (ty == 9 && table == Table::Gsub)
        }),
        ({
            let list = word(data@, 8);
            let n = word(data@, list as int);
            let at = list + word(data@, list + 2 + 2 * index);
            let ty = word(data@, at);
            list != 0 && list + 2 + 2 * n <= data@.len() && index < n && at != list && at + 6 <= data@.len()
                && 1 <= ty <= 8 ==> r == Ok::<usize, ReadError>(at as usize)
        }),
        ({
            let list = word(data@, 8);
            let n = word(data@, list as int);
            list != 0 && list + 2 + 2 * n <= data@.len() && index >= n ==> r == Err::<usize, ReadError>(
                ReadError::OutOfBounds,
            )
        }),
{
}

/// A subtable stands at its offset from the lookup and is of the lookup's type;
/// an extension stands for the subtable that it points at, of the type that it
/// names, which is never an extension.
pub proof fn an_extension_stands_for_what_it_points_at(
    data: &[u8],
    table: Table,
    ty: u16,
    lookup: usize,
    offset: u16,
    r: Option<(u16, usize)>,
)
    requires
        lookup <= 0x1_fffe,
        data@.len() <= 0xFFFF_0000,
        call_ensures(find_subtable, (data, table, ty, lookup, offset), r),
    ensures
        ({
            let extends = (table == Table::Gsub && ty == 7) || (table == Table::Gpos && ty == 9);
            let at = lookup + offset;
            &&& offset == 0 ==> r is None
            &&& offset != 0 && !extends && at <= data@.len() ==> r == Some((ty, at as usize))
            &&& r is Some && extends ==> {
                let (inner, place) = r->0;
                &&& inner == word(data@, at + 2)
                &&& place == at + long(data@, at + 4)
                &&& place != at
                &&& 1 <= inner
                &&& table == Table::Gsub ==> inner <= 8 && inner != 7
                &&& table == Table::Gpos ==> inner <= 8
            }
        }),
{
}

/// A type number stands for its own kind of subtable in each table. A type with
/// more than one format is told apart by the format that the subtable names, and
/// what names another is not read.
pub proof fn a_type_number_stands_for_its_kind(data: &[u8], table: Table, ty: u16, at: usize, r: Option<Format>)
    requires
        at + 16 <= data@.len(),
        call_ensures(read_format, (data, table, ty, at), r),
    ensures
        table == Table::Gpos ==> {
            &&& ty == 4 <==> r == Some(Format::MarkBase)
            &&& ty == 5 <==> r == Some(Format::MarkLig)
            &&& ty == 6 <==> r == Some(Format::MarkMark)
            &&& ty == 3 <==> r == Some(Format::Cursive)
            &&& (r == Some(Format::SinglePos1) || r == Some(Format::SinglePos2)) ==> ty == 1
            &&& (r == Some(Format::Pair1) || r == Some(Format::Pair2)) ==> ty == 2
            &&& (r == Some(Format::Context1) || r == Some(Format::Context2) || r == Some(Format::Context3)) ==> ty
                == 7
            &&& (r == Some(Format::Chain1) || r == Some(Format::Chain2) || r == Some(Format::Chain3)) ==> ty == 8
            &&& ty == 1 || ty == 2 ==> (r is Some <==> 1 <= word(data@, at as int) <= 2)
            &&& ty == 7 || ty == 8 ==> (r is Some <==> 1 <= word(data@, at as int) <= 3)
            &&& ty == 0 || ty > 8 ==> r is None
        },
        table == Table::Gsub ==> {
            &&& ty == 2 <==> r == Some(Format::Multiple)
            &&& ty == 3 <==> r == Some(Format::Alternate)
            &&& ty == 4 <==> r == Some(Format::Ligature)
            &&& ty == 8 <==> r == Some(Format::Reverse)
            &&& (r == Some(Format::SingleDelta) || r == Some(Format::SingleList)) ==> ty == 1
            &&& (r == Some(Format::Context1) || r == Some(Format::Context2) || r == Some(Format::Context3)) ==> ty
                == 5
            &&& (r == Some(Format::Chain1) || r == Some(Format::Chain2) || r == Some(Format::Chain3)) ==> ty == 6
            &&& ty == 1 ==> (r is Some <==> 1 <= word(data@, at as int) <= 2)
            &&& ty == 5 || ty == 6 ==> (r is Some <==> 1 <= word(data@, at as int) <= 3)
            &&& ty == 0 || ty == 7 || ty > 8 ==> r is None
        },
        r == Some(Format::SingleDelta) || r == Some(Format::SinglePos1) || r == Some(Format::Pair1) || r == Some(
            Format::Context1,
        ) || r == Some(Format::Chain1) ==> word(data@, at as int) == 1,
        r == Some(Format::SingleList) || r == Some(Format::SinglePos2) || r == Some(Format::Pair2) || r == Some(
            Format::Context2,
        ) || r == Some(Format::Chain2) ==> word(data@, at as int) == 2,
        r == Some(Format::Context3) || r == Some(Format::Chain3) ==> word(data@, at as int) == 3,
{
}

} // verus!
