pub use crate::carmack::carmack_expand;
use crate::carmack::carmack_expanded;
use crate::carmack::FarOffset;
use crate::error::LoadError;
use crate::error::MapError;
pub use crate::rlew::rlew_expand;
use crate::rlew::rlew_expanded;
use crate::util::le_i32;
use crate::util::le_u16;
use crate::util::lossy_utf8;
use crate::util::new_data_reader;
use crate::util::new_data_reader_with_offset;
use crate::util::strip_nuls;
use crate::util::without_nuls;
use vstd::prelude::*;
use vstd::slice::slice_subrange;

verus! {

/// The number of planes that are decoded for a map.
pub const MAP_PLANES: usize = 2;

/// The number of directory slots that are consulted.
pub const NUM_MAPS: usize = 60;

/// The number of offsets in a directory.
pub const DIRECTORY_SLOTS: usize = 100;

/// The size in bytes of a directory: the escape tag and the offsets.
pub const DIRECTORY_BYTES: usize = 402;

/// The size in bytes of a header record.
pub const HEADER_BYTES: usize = 38;

/// The size in bytes of a header record's name field.
pub const NAME_BYTES: usize = 16;

/// The number of cells in a decoded plane: 64 rows of 64.
pub const PLANE_CELLS: usize = 4096;

/// The decoded planes of one map.
pub struct MapData {
    pub segs: [Vec<u16>; MAP_PLANES],
}

/// The header record of one map.
pub struct MapType {
    pub plane_start: [i32; 3],
    pub plane_length: [u16; 3],
    pub width: u16,
    pub height: u16,
    pub name: String,
}

/// The directory of a data file.
pub struct MapFileType {
    pub rlew_tag: u16,
    pub header_offsets: Vec<i32>,
}

/// What a header record holds, as plain values.
pub ghost struct MapTypeView {
    pub plane_start: Seq<i32>,
    pub plane_length: Seq<u16>,
    pub width: u16,
    pub height: u16,
    pub name: Seq<char>,
}

impl View for MapType {
    type V = MapTypeView;

    open spec fn view(&self) -> MapTypeView {
        MapTypeView {
            plane_start: self.plane_start@,
            plane_length: self.plane_length@,
            width: self.width,
            height: self.height,
            name: self.name@,
        }
    }
}

impl MapData {
    /// Every plane holds one cell for each place of the grid.
    pub open spec fn wf(&self) -> bool {
        forall|p: int| 0 <= p < MAP_PLANES ==> (#[trigger] self.segs@[p])@.len() == PLANE_CELLS
    }
}

impl MapFileType {
    /// A directory has one offset for each of its slots.
    pub open spec fn wf(&self) -> bool {
        self.header_offsets@.len() == DIRECTORY_SLOTS
    }
}

/// The offsets that a directory stores, in slot order.
pub open spec fn directory_offsets(bytes: Seq<u8>) -> Seq<i32> {
    Seq::new(DIRECTORY_SLOTS as nat, |i: int| le_i32(bytes, 2 + 4 * i) as i32)
}

/// The header record that is stored at `pos`.
pub open spec fn header_at(bytes: Seq<u8>, pos: int) -> MapTypeView {
    MapTypeView {
        plane_start: seq![
            le_i32(bytes, pos) as i32,
            le_i32(bytes, pos + 4) as i32,
            le_i32(bytes, pos + 8) as i32,
        ],
        plane_length: seq![
            le_u16(bytes, pos + 12) as u16,
            le_u16(bytes, pos + 14) as u16,
            le_u16(bytes, pos + 16) as u16,
        ],
        width: le_u16(bytes, pos + 18) as u16,
        height: le_u16(bytes, pos + 20) as u16,
        name: without_nuls(lossy_utf8(bytes.subrange(pos + 22, pos + 38))),
    }
}

/// Whether a record can be read at `pos`, and the error if it cannot: a
/// position past the end is no seek target, and a record that starts inside
/// the buffer must end inside it.
pub open spec fn header_readable(total: nat, pos: int) -> Result<(), MapError> {
    if pos < 0 || pos > total {
        Err(MapError::InvalidOffset)
    } else if pos + HEADER_BYTES > total {
        Err(MapError::TruncatedInput)
    } else {
        Ok(())
    }
}

/// The header list from slot `slot` on, behind the records `done` of the
/// slots before: a slot with a negative offset adds nothing, any other adds
/// the record at its offset, and the first record that cannot be read ends
/// the scan with its error.
pub open spec fn headers_from(bytes: Seq<u8>, offsets: Seq<i32>, slot: int, done: Seq<MapTypeView>) -> Result<
    Seq<MapTypeView>,
    MapError,
>
    decreases NUM_MAPS - slot,
{
    if slot < 0 || slot >= NUM_MAPS {
        Ok(done)
    } else if offsets[slot] < 0 {
        headers_from(bytes, offsets, slot + 1, done)
    } else {
        match header_readable(bytes.len(), offsets[slot] as int) {
            Err(e) => Err(e),
            Ok(_) => headers_from(
                bytes,
                offsets,
                slot + 1,
                done.push(header_at(bytes, offsets[slot] as int)),
            ),
        }
    }
}

/// The header list of a data file: the records of the consulted slots that
/// are present, in slot order.
pub open spec fn parsed_headers(bytes: Seq<u8>, offsets: Seq<i32>) -> Result<
    Seq<MapTypeView>,
    MapError,
> {
    headers_from(bytes, offsets, 0, Seq::empty())
}

/// Whether every consulted slot of `offsets` is a sparse slot.
pub open spec fn all_sparse(offsets: Seq<i32>) -> bool {
    forall|i: int| 0 <= i < NUM_MAPS ==> offsets[i] < 0
}

proof fn lemma_sparse_from(bytes: Seq<u8>, offsets: Seq<i32>, slot: int, done: Seq<MapTypeView>)
    requires
        all_sparse(offsets),
        0 <= slot,
    ensures
        headers_from(bytes, offsets, slot, done) == Ok::<Seq<MapTypeView>, MapError>(done),
    decreases NUM_MAPS - slot,
{
    if slot < NUM_MAPS {
        lemma_sparse_from(bytes, offsets, slot + 1, done);
    }
}

/// A directory whose consulted slots are all sparse has an empty header
/// list, whatever the file holds.
pub proof fn lemma_sparse_directory_has_no_headers(bytes: Seq<u8>, offsets: Seq<i32>)
    requires
        all_sparse(offsets),
    ensures
        parsed_headers(bytes, offsets) == Ok::<Seq<MapTypeView>, MapError>(Seq::empty()),
{
    lemma_sparse_from(bytes, offsets, 0, Seq::empty());
}

/// The numbers of the consulted slots that are present from slot `slot` on,
/// in order, behind the numbers `done` of those before.
pub open spec fn slots_from(offsets: Seq<i32>, slot: int, done: Seq<usize>) -> Seq<usize>
    decreases NUM_MAPS - slot,
{
    if slot < 0 || slot >= NUM_MAPS {
        done
    } else if offsets[slot] < 0 {
        slots_from(offsets, slot + 1, done)
    } else {
        slots_from(offsets, slot + 1, done.push(slot as usize))
    }
}

/// Whether record `k` of `headers` is the one that slot `slots[k]` points
/// at, for every `k`.
pub open spec fn headers_of_slots(
    bytes: Seq<u8>,
    offsets: Seq<i32>,
    headers: Seq<MapTypeView>,
    slots: Seq<usize>,
) -> bool {
    &&& headers.len() == slots.len()
    &&& forall|k: int|
        0 <= k < slots.len() ==> (#[trigger] slots[k]) < NUM_MAPS && offsets[slots[k] as int] >= 0
            && headers[k] == header_at(bytes, offsets[slots[k] as int] as int)
}

proof fn lemma_slots_from(
    bytes: Seq<u8>,
    offsets: Seq<i32>,
    slot: int,
    headers: Seq<MapTypeView>,
    slots: Seq<usize>,
)
    requires
        0 <= slot,
        headers_of_slots(bytes, offsets, headers, slots),
    ensures
        headers_from(bytes, offsets, slot, headers) matches Ok(all) ==> headers_of_slots(
            bytes,
            offsets,
            all,
            slots_from(offsets, slot, slots),
        ),
    decreases NUM_MAPS - slot,
{
    if slot < NUM_MAPS {
        if offsets[slot] < 0 {
            lemma_slots_from(bytes, offsets, slot + 1, headers, slots);
        } else if header_readable(bytes.len(), offsets[slot] as int) is Ok {
            lemma_slots_from(
                bytes,
                offsets,
                slot + 1,
                headers.push(header_at(bytes, offsets[slot] as int)),
                slots.push(slot as usize),
            );
        }
    }
}

/// The header list and the list of present slots run side by side: record
/// `k` of the one is the record that slot `k` of the other points at.
pub proof fn lemma_headers_match_slots(bytes: Seq<u8>, offsets: Seq<i32>)
    ensures
        parsed_headers(bytes, offsets) matches Ok(all) ==> headers_of_slots(
            bytes,
            offsets,
            all,
            slots_from(offsets, 0, Seq::empty()),
        ),
{
    lemma_slots_from(bytes, offsets, 0, Seq::empty(), Seq::empty());
}

/// The records of `headers` as plain values.
pub open spec fn header_views(headers: Seq<MapType>) -> Seq<MapTypeView> {
    headers.map_values(|h: MapType| h@)
}

fn read_header(bytes: &[u8], pos: usize) -> (r: Result<MapType, MapError>)
    ensures
        (match r {
            Ok(h) => header_readable(bytes@.len(), pos as int) is Ok && h@ == header_at(
                bytes@,
                pos as int,
            ),
            Err(e) => header_readable(bytes@.len(), pos as int) == Err::<(), MapError>(e),
        }),
{
    let total: usize = bytes.len();
    if pos > total {
        return Err(MapError::InvalidOffset);
    }
    if total - pos < HEADER_BYTES {
        return Err(MapError::TruncatedInput);
    }
    let mut reader = new_data_reader_with_offset(bytes, pos);
    let s0 = match reader.read_i32() { Ok(v) => v, Err(e) => { return Err(e); } };
    let s1 = match reader.read_i32() { Ok(v) => v, Err(e) => { return Err(e); } };
    let s2 = match reader.read_i32() { Ok(v) => v, Err(e) => { return Err(e); } };
    let l0 = match reader.read_u16() { Ok(v) => v, Err(e) => { return Err(e); } };
    let l1 = match reader.read_u16() { Ok(v) => v, Err(e) => { return Err(e); } };
    let l2 = match reader.read_u16() { Ok(v) => v, Err(e) => { return Err(e); } };
    let width = match reader.read_u16() { Ok(v) => v, Err(e) => { return Err(e); } };
    let height = match reader.read_u16() { Ok(v) => v, Err(e) => { return Err(e); } };
    let raw = match reader.read_utf8_string(NAME_BYTES) { Ok(v) => v, Err(e) => { return Err(e); } };
    let name = strip_nuls(raw.as_str());
    let plane_start: [i32; 3] = [s0, s1, s2];
    let plane_length: [u16; 3] = [l0, l1, l2];
    let h = MapType { plane_start, plane_length, width, height, name };
    assert(h@.plane_start =~= header_at(bytes@, pos as int).plane_start);
    assert(h@.plane_length =~= header_at(bytes@, pos as int).plane_length);
    Ok(h)
}

/// Reads the header record of each present map among the consulted slots of
/// the directory `offsets`, in slot order, and hands the directory back.
pub fn load_map_headers(bytes: &Vec<u8>, offsets: MapFileType) -> (r: Result<
    (MapFileType, Vec<MapType>),
    MapError,
>)
    requires
        offsets.wf(),
    ensures
        (match r {
            Ok((directory, headers)) => directory == offsets && parsed_headers(
                bytes@,
                offsets.header_offsets@,
            ) == Ok::<Seq<MapTypeView>, MapError>(header_views(headers@)),
            Err(e) => parsed_headers(bytes@, offsets.header_offsets@) == Err::<
                Seq<MapTypeView>,
                MapError,
            >(e),
        }),
{
    let mut headers: Vec<MapType> = Vec::new();
    let mut i: usize = 0;
    assert(header_views(headers@) =~= Seq::<MapTypeView>::empty());
    while i < NUM_MAPS
        invariant
            i <= NUM_MAPS,
            offsets.wf(),
            parsed_headers(bytes@, offsets.header_offsets@) == headers_from(
                bytes@,
                offsets.header_offsets@,
                i as int,
                header_views(headers@),
            ),
        decreases NUM_MAPS - i,
    {
        let pos: i32 = offsets.header_offsets[i];
        if pos >= 0 {
            match read_header(bytes.as_slice(), pos as usize) {
                Ok(h) => {
                    assert(header_views(headers@.push(h)) =~= header_views(headers@).push(h@));
                    headers.push(h);
                },
                Err(e) => {
                    return Err(e);
                },
            }
        }
        i += 1;
    }
    Ok((offsets, headers))
}

/// The slot number of each record of the header list, in the list's order:
/// the list itself leaves out the sparse slots and so does not tell.
pub fn present_slots(offsets: &MapFileType) -> (slots: Vec<usize>)
    requires
        offsets.wf(),
    ensures
        slots@ == slots_from(offsets.header_offsets@, 0, Seq::empty()),
{
    let mut slots: Vec<usize> = Vec::new();
    let mut i: usize = 0;
    while i < NUM_MAPS
        invariant
            i <= NUM_MAPS,
            offsets.wf(),
            slots_from(offsets.header_offsets@, 0, Seq::empty()) == slots_from(
                offsets.header_offsets@,
                i as int,
                slots@,
            ),
        decreases NUM_MAPS - i,
    {
        if offsets.header_offsets[i] >= 0 {
            slots.push(i);
        }
        i += 1;
    }
    slots
}

/// Reads the directory that `bytes` starts with: the escape tag, then the
/// offsets of the header records.
pub fn load_map_offsets(bytes: &Vec<u8>) -> (r: Result<MapFileType, MapError>)
    ensures
        (match r {
            Ok(directory) => bytes@.len() >= DIRECTORY_BYTES && directory.wf() && directory.rlew_tag
                == le_u16(bytes@, 0) && directory.header_offsets@ == directory_offsets(bytes@),
            Err(e) => e == MapError::TruncatedInput && bytes@.len() < DIRECTORY_BYTES,
        }),
{
    if bytes.len() < DIRECTORY_BYTES {
        return Err(MapError::TruncatedInput);
    }
    let mut reader = new_data_reader(bytes.as_slice());
    let rlew_tag = match reader.read_u16() { Ok(v) => v, Err(e) => { return Err(e); } };
    let mut header_offsets: Vec<i32> = Vec::new();
    let mut k: usize = 0;
    while k < DIRECTORY_SLOTS
        invariant
            k <= DIRECTORY_SLOTS,
            bytes@.len() >= DIRECTORY_BYTES,
            reader.bytes() == bytes@,
            reader.position() == 2 + 4 * k,
            header_offsets@.len() == k,
            forall|j: int| 0 <= j < k ==> header_offsets@[j] == le_i32(bytes@, 2 + 4 * j),
        decreases DIRECTORY_SLOTS - k,
    {
        let v = match reader.read_i32() { Ok(v) => v, Err(e) => { return Err(e); } };
        header_offsets.push(v);
        k += 1;
    }
    assert(header_offsets@ =~= directory_offsets(bytes@));
    Ok(MapFileType { rlew_tag, header_offsets })
}

/// The stored bytes of a plane that starts at `start` and is `length` bytes
/// long.
pub open spec fn plane_bytes(data: Seq<u8>, start: i32, length: u16) -> Result<Seq<u8>, MapError> {
    if start < 0 || start > data.len() {
        Err(MapError::InvalidOffset)
    } else if start + length > data.len() {
        Err(MapError::TruncatedInput)
    } else {
        Ok(data.subrange(start as int, start + length))
    }
}

/// The cells of a stored plane. Its first word is the length of the inner
/// stream, the rest expands to that stream; the inner stream's first word is
/// passed over, and the rest expands to the cells.
pub open spec fn plane_cells(compressed: Seq<u8>, tag: u16) -> Result<Seq<u16>, MapError> {
    if compressed.len() < 2 {
        Err(MapError::TruncatedInput)
    } else {
        match carmack_expanded(
            compressed.skip(2),
            le_u16(compressed, 0) as nat,
            FarOffset::FromZero,
        ) {
            Err(e) => Err(e),
            Ok(inner) => if inner.len() < 2 {
                Err(MapError::TruncatedInput)
            } else {
                rlew_expanded(inner.skip(2), PLANE_CELLS as nat, tag)
            },
        }
    }
}

/// The cells of plane `plane` of the map with header `header`.
pub open spec fn loaded_plane(data: Seq<u8>, header: MapTypeView, plane: int, tag: u16) -> Result<
    Seq<u16>,
    MapError,
> {
    match plane_bytes(data, header.plane_start[plane], header.plane_length[plane]) {
        Err(e) => Err(e),
        Ok(compressed) => plane_cells(compressed, tag),
    }
}

/// Decodes one stored plane to its cells.
pub fn decode_plane(compressed: &[u8], rlew_tag: u16) -> (r: Result<Vec<u16>, MapError>)
    ensures
        (match r {
            Ok(cells) => plane_cells(compressed@, rlew_tag) == Ok::<Seq<u16>, MapError>(cells@)
                && cells@.len() == PLANE_CELLS,
            Err(e) => plane_cells(compressed@, rlew_tag) == Err::<Seq<u16>, MapError>(e),
        }),
{
    let mut reader = new_data_reader(compressed);
    let expanded_len = match reader.read_u16() { Ok(v) => v, Err(e) => { return Err(e); } };
    let remaining_bytes = reader.unread_bytes();
    assert(remaining_bytes@ =~= compressed@.skip(2));
    let carmack_expanded = match carmack_expand(remaining_bytes, expanded_len as usize) {
        Ok(v) => v,
        Err(e) => { return Err(e); },
    };
    if carmack_expanded.len() < 2 {
        return Err(MapError::TruncatedInput);
    }
    let words = slice_subrange(carmack_expanded.as_slice(), 2, carmack_expanded.len());
    assert(words@ =~= carmack_expanded@.skip(2));
    rlew_expand(words, PLANE_CELLS, rlew_tag)
}

fn load_plane(map_data: &[u8], header: &MapType, plane: usize, rlew_tag: u16) -> (r: Result<
    Vec<u16>,
    MapError,
>)
    requires
        plane < 3,
    ensures
        (match r {
            Ok(cells) => loaded_plane(map_data@, header@, plane as int, rlew_tag) == Ok::<
                Seq<u16>,
                MapError,
            >(cells@) && cells@.len() == PLANE_CELLS,
            Err(e) => loaded_plane(map_data@, header@, plane as int, rlew_tag) == Err::<
                Seq<u16>,
                MapError,
            >(e),
        }),
{
    let pos: i32 = header.plane_start[plane];
    let compressed: usize = header.plane_length[plane] as usize;
    let total: usize = map_data.len();
    if pos < 0 || pos as usize > total {
        return Err(MapError::InvalidOffset);
    }
    let start: usize = pos as usize;
    if total - start < compressed {
        return Err(MapError::TruncatedInput);
    }
    let buf = slice_subrange(map_data, start, start + compressed);
    decode_plane(buf, rlew_tag)
}

/// What loading map `mapnum` gives: the cells of its two planes, or the
/// first failure with the plane that it came from.
pub open spec fn loaded_map(
    data: Seq<u8>,
    headers: Seq<MapTypeView>,
    tag: u16,
    mapnum: int,
) -> Result<(Seq<u16>, Seq<u16>), LoadError> {
    if mapnum < 0 || mapnum >= headers.len() {
        Err(LoadError::NoSuchMap)
    } else {
        match loaded_plane(data, headers[mapnum], 0, tag) {
            Err(kind) => Err(LoadError::Plane { plane: 0, kind }),
            Ok(first) => match loaded_plane(data, headers[mapnum], 1, tag) {
                Err(kind) => Err(LoadError::Plane { plane: 1, kind }),
                Ok(second) => Ok((first, second)),
            },
        }
    }
}

/// Decodes the two planes of the map with number `mapnum` in the header
/// list, from the data file `map_data`.
pub fn load_map(
    map_data: &[u8],
    map_headers: &Vec<MapType>,
    map_offsets: &MapFileType,
    mapnum: usize,
) -> (r: Result<MapData, LoadError>)
    ensures
        (match r {
            Ok(map) => map.wf() && loaded_map(
                map_data@,
                header_views(map_headers@),
                map_offsets.rlew_tag,
                mapnum as int,
            ) == Ok::<(Seq<u16>, Seq<u16>), LoadError>((map.segs@[0]@, map.segs@[1]@)),
            Err(e) => loaded_map(
                map_data@,
                header_views(map_headers@),
                map_offsets.rlew_tag,
                mapnum as int,
            ) == Err::<(Seq<u16>, Seq<u16>), LoadError>(e),
        }),
{
    if mapnum >= map_headers.len() {
        return Err(LoadError::NoSuchMap);
    }
    let header = &map_headers[mapnum];
    assert(header_views(map_headers@)[mapnum as int] == header@);
    let first = match load_plane(map_data, header, 0, map_offsets.rlew_tag) {
        Ok(v) => v,
        Err(kind) => { return Err(LoadError::Plane { plane: 0, kind }); },
    };
    let second = match load_plane(map_data, header, 1, map_offsets.rlew_tag) {
        Ok(v) => v,
        Err(kind) => { return Err(LoadError::Plane { plane: 1, kind }); },
    };
    let segs: [Vec<u16>; MAP_PLANES] = [first, second];
    Ok(MapData { segs })
}

} // verus!
