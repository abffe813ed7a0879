//! The plain records and status codes of the engine's C interface, and the checks it
//! makes of what a caller hands it before any of the engine's other libraries is asked.
//!
//! Each record is a fixed set of integers that crosses the boundary by value; the
//! boundary itself, which hands these to and from the engine's other libraries, stands
//! outside this crate.
use vstd::prelude::*;

verus! {

pub const SOURCE_ABI_VERSION: u32 = 1;

pub type SourceAbiStatus = i32;

pub const SOURCE_ABI_OK: SourceAbiStatus = 0;
pub const SOURCE_ABI_INVALID_ARGUMENT: SourceAbiStatus = 1;
pub const SOURCE_ABI_UNSUPPORTED_VERSION: SourceAbiStatus = 2;
pub const SOURCE_ABI_INVALID_HANDLE: SourceAbiStatus = 3;
pub const SOURCE_ABI_BUFFER_TOO_SMALL: SourceAbiStatus = 4;
pub const SOURCE_ABI_PANIC: SourceAbiStatus = 5;
pub const SOURCE_ABI_INTERNAL_ERROR: SourceAbiStatus = 6;
pub const SOURCE_ABI_IO_ERROR: SourceAbiStatus = 7;
pub const SOURCE_ABI_FORMAT_ERROR: SourceAbiStatus = 8;
pub const SOURCE_ABI_NOT_FOUND: SourceAbiStatus = 9;
/// A well-formed request the callee chose not to serve.
pub const SOURCE_ABI_DECLINED: SourceAbiStatus = 10;

pub const SOURCE_READ_PATH_DISK: u32 = 0;
pub const SOURCE_READ_PATH_VPK: u32 = 1;
/// A file read out of a map's embedded archive.
pub const SOURCE_READ_PATH_PAK: u32 = 2;

pub const SOURCE_ABI_SNAPSHOT_DELTA_ENTER_PVS: u32 = 0;
pub const SOURCE_ABI_SNAPSHOT_DELTA_LEAVE_PVS: u32 = 1;
pub const SOURCE_ABI_SNAPSHOT_DELTA_CANDIDATE: u32 = 2;

/// A length the caller states, as one this machine can address: refused where it is not.
pub fn checked_len(length: u64) -> (r: Result<usize, SourceAbiStatus>)
    ensures
        match r {
            Ok(n) => n == length,
            Err(status) => length > usize::MAX && status == SOURCE_ABI_INVALID_ARGUMENT,
        },
{
    if length > usize::MAX as u64 {
        return Err(SOURCE_ABI_INVALID_ARGUMENT);
    }
    Ok(length as usize)
}

#[derive(Clone, Copy, Default)]
pub struct SourceAbiFramePlan {
    pub interpolation_numerator_ns: u64,
    pub interpolation_denominator_ns: u64,
    pub dropped_ns: u64,
    pub tick_count: u32,
    pub reserved: u32,
}

#[derive(Clone, Copy, Default)]
pub struct SourceAbiFrameLoopInfo {
    pub iteration_count: u64,
    pub exit_reason: u32,
    pub reserved: u32,
}

#[derive(Clone, Copy, Default)]
pub struct SourceAbiFramePace {
    pub elapsed_ns: u64,
    pub wait_ns: u64,
    pub ready: u32,
    pub reserved: u32,
}

#[derive(Clone, Copy, Default)]
pub struct SourceAbiHostOperationInfo {
    pub target_length: u64,
    pub landmark_length: u64,
    pub kind: u32,
    pub flags: u32,
}

#[derive(Clone, Copy, Default)]
pub struct SourceAbiWorldInfo {
    pub plane_count: u64,
    pub node_count: u64,
    pub leaf_count: u64,
    pub cluster_count: u64,
}

#[derive(Clone, Copy, Default)]
pub struct SourceAbiWorldLeaf {
    pub leaf_index: u64,
    pub contents: i32,
    pub cluster: i32,
    pub area: u32,
    pub flags: u32,
}

#[derive(Clone, Copy, Default)]
pub struct SourceAbiCvarInfo {
    pub generation: u64,
    pub flags: u32,
    pub reserved: u32,
}

#[derive(Clone, Copy, Default)]
pub struct SourceAbiDemoInfo {
    pub command_count: u64,
    pub packet_count: u64,
    pub playback_ticks: i32,
    pub network_protocol: i32,
    pub string_table_section_count: u64,
    pub string_table_entry_count: u64,
}

#[derive(Clone, Copy, Default)]
pub struct SourceAbiSaveInfo {
    pub embedded_file_count: u64,
    pub embedded_map_state_count: u64,
    pub token_count: u64,
}

#[derive(Clone, Copy, Default, Debug, PartialEq, Eq)]
pub struct SourceAbiNetPacketDecision {
    pub incoming_sequence: i32,
    pub outgoing_ack: i32,
    pub dropped: i32,
    pub accepted: u32,
    pub reason: u32,
    pub reserved: u32,
}

#[derive(Clone, Copy, Default, Debug, PartialEq, Eq)]
pub struct SourceAbiNetSequenceAdvance {
    pub previous: i32,
    pub current: i32,
}

#[derive(Clone, Copy, Default, Debug, PartialEq, Eq)]
pub struct SourceAbiNetPacketHeader {
    pub sequence: i32,
    pub outgoing_ack: i32,
    pub flags: u32,
    pub reliable_state: u32,
    pub choked: u32,
    pub challenge: u32,
    pub header_bytes: u32,
    pub accepted: u32,
    pub reason: u32,
    pub reserved: u32,
}

#[derive(Clone, Copy, Default, Debug, PartialEq, Eq)]
pub struct SourceAbiNetEncodedPacketHeader {
    pub bytes: [u8; 20],
    pub length: u32,
    pub flags_offset: u32,
    pub checksum_offset: u32,
    pub checksum_start: u32,
    pub base_flags: u32,
    pub reserved: u32,
}

#[derive(Clone, Copy, Default, Debug, PartialEq, Eq)]
pub struct SourceAbiStringTableUpsert {
    pub index: u32,
    pub entry_count: u32,
    pub created: u32,
    pub user_data_changed: u32,
    pub tick_changed: i32,
    pub reserved: u32,
}

#[derive(Clone, Copy, Default, Debug, PartialEq, Eq)]
pub struct SourceAbiStringTableChange {
    pub tick_changed: i32,
    pub changed: u32,
}

#[derive(Clone, Copy, Default, Debug, PartialEq, Eq)]
pub struct SourceAbiDataTableRegistration {
    pub table_id: u32,
    pub created: u32,
}

#[derive(Clone, Copy, Default, Debug, PartialEq, Eq)]
pub struct SourceAbiDataTableSummary {
    pub table_count: u32,
    pub property_count: u32,
    pub class_count: u32,
    pub compatibility_crc: u32,
}

#[derive(Clone, Copy, Default, Debug, PartialEq, Eq)]
pub struct SourceAbiSnapshotEntity {
    pub entity_index: u32,
    pub serial_number: i32,
    pub class_id: u32,
    pub reserved: u32,
}

#[derive(Clone, Copy, Default, Debug, PartialEq, Eq)]
pub struct SourceAbiSnapshotSummary {
    pub tick: i32,
    pub max_entities: u32,
    pub valid_entity_count: u32,
    pub explicit_delete_count: u32,
}

#[derive(Clone, Copy, Default, Debug, PartialEq, Eq)]
pub struct SourceAbiSnapshotDelta {
    pub entity_index: u32,
    pub kind: u32,
    pub class_id: u32,
    pub serial_number: i32,
    pub recreated: u32,
    pub reserved: u32,
}

/// A decoded `SPLITPACKET` header.
#[derive(Clone, Copy, Default)]
pub struct SourceAbiSplitPacketHeader {
    pub sequence: i32,
    pub packet_number: u32,
    pub packet_count: u32,
    pub split_size: u32,
}

#[derive(Default, Clone, Copy)]
pub struct SourceAbiPakEntry {
    pub data_offset: u64,
    pub length: u32,
    pub compressed_length: u32,
    pub method: u32,
    pub index: u32,
    pub crc32: u32,
    pub reserved: u32,
}

#[derive(Default, Clone, Copy)]
pub struct SourceAbiPakArchiveInfo {
    pub offset: u64,
    pub length: u64,
    pub modified_seconds: i64,
    pub entry_count: u32,
    pub reserved: u32,
}


/// The most search paths one plan takes.
pub const SEARCH_PLAN_MAX_PATHS: u32 = 65536;
/// The most UTF-8 bytes in a path ID, stored or requested.
pub const SEARCH_PATH_ID_MAX_BYTES: u64 = 4096;

/// Which sources a search plan keeps, by whether each is a pack (a map's embedded
/// archive or a ZIP; a VPK counts as no pack).
#[derive(Clone, Copy, Debug, PartialEq, Eq, Structural)]
pub enum SearchFilter {
    All,
    CullPack,
    CullNonPack,
}

/// What the flag word of one search path says of it.
#[derive(Clone, Copy, Debug, PartialEq, Eq, Structural)]
pub struct SearchPathFlags {
    pub pack: bool,
    pub map: bool,
    pub by_request_only: bool,
    pub excluded: bool,
}

/// Whether a flag word holds the flag whose value is `bit`, a power of two.
pub open spec fn has_flag(flags: u32, bit: u32) -> bool {
    (flags / bit) % 2 == 1
}

/// The filter a code names: 0 keeps all, 1 culls packs, 2 culls all but packs.
pub open spec fn filter_of_code(code: u32) -> Option<SearchFilter> {
    if code == 0 {
        Some(SearchFilter::All)
    } else if code == 1 {
        Some(SearchFilter::CullPack)
    } else if code == 2 {
        Some(SearchFilter::CullNonPack)
    } else {
        None
    }
}

/// A plan request the interface refuses whatever its paths hold: too many paths, paths
/// counted but not given, a request flag other than 0 or 1, a requested ID too long, or
/// request bytes with no request.
pub open spec fn search_request_refused(
    count: u32,
    paths_given: bool,
    has_requested: u8,
    requested_length: u64,
) -> bool {
    ||| count > SEARCH_PLAN_MAX_PATHS
    ||| (count != 0 && !paths_given)
    ||| has_requested > 1
    ||| requested_length > SEARCH_PATH_ID_MAX_BYTES
    ||| (has_requested == 0 && requested_length != 0)
}

/// A search path's flags as the interface reads them: `None` where a bit above the
/// four known ones is set, where a map is flagged that is no pack, or where its ID is
/// too long.
pub open spec fn search_path_flags_spec(flags: u32, path_id_length: u64) -> Option<SearchPathFlags> {
    if flags >= 16 || (has_flag(flags, 2) && !has_flag(flags, 1))
        || path_id_length > SEARCH_PATH_ID_MAX_BYTES {
        None
    } else {
        Some(
            SearchPathFlags {
                pack: has_flag(flags, 1),
                map: has_flag(flags, 2),
                by_request_only: has_flag(flags, 4),
                excluded: has_flag(flags, 8),
            },
        )
    }
}

/// Checks the head of a search-plan request and decodes its filter code.
pub fn search_plan_request(
    count: u32,
    paths_given: bool,
    has_requested: u8,
    requested_length: u64,
    filter: u32,
) -> (r: Result<SearchFilter, SourceAbiStatus>)
    ensures
        match r {
            Ok(f) => !search_request_refused(count, paths_given, has_requested, requested_length)
                && filter_of_code(filter) == Some(f),
            Err(status) => status == SOURCE_ABI_INVALID_ARGUMENT && (search_request_refused(
                count,
                paths_given,
                has_requested,
                requested_length,
            ) || filter_of_code(filter) is None),
        },
{
    if count > SEARCH_PLAN_MAX_PATHS || (count != 0 && !paths_given) || has_requested > 1
        || requested_length > SEARCH_PATH_ID_MAX_BYTES || (has_requested == 0
        && requested_length != 0) {
        return Err(SOURCE_ABI_INVALID_ARGUMENT);
    }
    match filter {
        0 => Ok(SearchFilter::All),
        1 => Ok(SearchFilter::CullPack),
        2 => Ok(SearchFilter::CullNonPack),
        _ => Err(SOURCE_ABI_INVALID_ARGUMENT),
    }
}

proof fn lemma_low_bits(flags: u32)
    ensures
        ((flags & !15u32) != 0) == (flags >= 16),
        ((flags & 1) != 0) == has_flag(flags, 1),
        ((flags & 2) != 0) == has_flag(flags, 2),
        ((flags & 4) != 0) == has_flag(flags, 4),
        ((flags & 8) != 0) == has_flag(flags, 8),
{
    assert(((flags & !15u32) != 0) == (flags >= 16)) by (bit_vector);
    assert(((flags & 1) != 0) == (flags % 2 == 1)) by (bit_vector);
    assert(((flags & 2) != 0) == ((flags / 2) % 2 == 1)) by (bit_vector);
    assert(((flags & 4) != 0) == ((flags / 4) % 2 == 1)) by (bit_vector);
    assert(((flags & 8) != 0) == ((flags / 8) % 2 == 1)) by (bit_vector);
}

/// Decodes one search path's flag word, refusing what the interface refuses.
pub fn search_path_flags(flags: u32, path_id_length: u64) -> (r: Option<SearchPathFlags>)
    ensures
        r == search_path_flags_spec(flags, path_id_length),
{
    proof {
        lemma_low_bits(flags);
    }
    if flags & !15u32 != 0 || (flags & 2 != 0 && flags & 1 == 0)
        || path_id_length > SEARCH_PATH_ID_MAX_BYTES {
        return None;
    }
    Some(
        SearchPathFlags {
            pack: flags & 1 != 0,
            map: flags & 2 != 0,
            by_request_only: flags & 4 != 0,
            excluded: flags & 8 != 0,
        },
    )
}



/// An entity of a frame snapshot, as the snapshot keeps it.
#[derive(Clone, Copy, Debug, PartialEq, Eq, Structural)]
pub struct SnapshotEntityRecord {
    pub entity_index: u32,
    pub serial_number: i32,
    pub class_id: u32,
}

/// An entity record the interface takes: its reserved word is zero and its class is
/// one of the `class_count` classes registered.
pub open spec fn snapshot_entity_accepted(e: SourceAbiSnapshotEntity, class_count: u32) -> bool {
    e.reserved == 0 && e.class_id < class_count
}

pub open spec fn snapshot_record(e: SourceAbiSnapshotEntity) -> SnapshotEntityRecord {
    SnapshotEntityRecord {
        entity_index: e.entity_index,
        serial_number: e.serial_number,
        class_id: e.class_id,
    }
}

/// Checks the stated length of a snapshot's entity array: one this machine cannot
/// address, or one given with no array, is an invalid argument; one above `limit` does
/// not fit.
pub fn snapshot_entity_count(entity_count: u64, limit: usize, entities_given: bool) -> (r: Result<
    usize,
    SourceAbiStatus,
>)
    ensures
        match r {
            Ok(n) => n == entity_count && n <= limit && (n == 0 || entities_given),
            Err(status) => if entity_count > usize::MAX {
                status == SOURCE_ABI_INVALID_ARGUMENT
            } else if entity_count > limit {
                status == SOURCE_ABI_BUFFER_TOO_SMALL
            } else {
                status == SOURCE_ABI_INVALID_ARGUMENT && entity_count != 0 && !entities_given
            },
        },
{
    let n = match checked_len(entity_count) {
        Ok(n) => n,
        Err(status) => return Err(status),
    };
    if n > limit {
        return Err(SOURCE_ABI_BUFFER_TOO_SMALL);
    }
    if n != 0 && !entities_given {
        return Err(SOURCE_ABI_INVALID_ARGUMENT);
    }
    Ok(n)
}

/// The entities a snapshot is made of, in their order: `None` where any record has a
/// reserved word set or names a class beyond the `class_count` registered.
pub fn snapshot_entities(entities: &[SourceAbiSnapshotEntity], class_count: u32) -> (r: Option<
    Vec<SnapshotEntityRecord>,
>)
    ensures
        match r {
            Some(v) => (forall|i: int|
                0 <= i < entities@.len() ==> #[trigger] snapshot_entity_accepted(
                    entities@[i],
                    class_count,
                )) && v@ == entities@.map_values(|e: SourceAbiSnapshotEntity| snapshot_record(e)),
            None => exists|i: int|
                0 <= i < entities@.len() && !#[trigger] snapshot_entity_accepted(
                    entities@[i],
                    class_count,
                ),
        },
{
    let mut out: Vec<SnapshotEntityRecord> = Vec::new();
    let mut i: usize = 0;
    while i < entities.len()
        invariant
            i <= entities@.len(),
            out@.len() == i,
            forall|j: int| 0 <= j < i ==> #[trigger] snapshot_entity_accepted(entities@[j], class_count),
            forall|j: int| 0 <= j < i ==> out@[j] == snapshot_record(#[trigger] entities@[j]),
        decreases entities@.len() - i,
    {
        let e = entities[i];
        if e.reserved != 0 || e.class_id >= class_count {
            assert(!snapshot_entity_accepted(entities@[i as int], class_count));
            return None;
        }
        out.push(
            SnapshotEntityRecord {
                entity_index: e.entity_index,
                serial_number: e.serial_number,
                class_id: e.class_id,
            },
        );
        i = i + 1;
    }
    assert(out@ =~= entities@.map_values(|e: SourceAbiSnapshotEntity| snapshot_record(e)));
    Some(out)
}

/// The size of one string-table section a demo carries: its entries, and the
/// client-side entries where it has them.
#[derive(Clone, Copy, Debug, PartialEq, Eq, Structural)]
pub struct StringTableSectionSize {
    pub entries: u64,
    pub client_side_entries: Option<u64>,
}

/// One command of a demo, as far as its validation counts it.
#[derive(Clone, Debug)]
pub enum DemoCommandSummary {
    Signon,
    Packet,
    StringTables(Vec<StringTableSectionSize>),
    Other,
}

pub open spec fn section_entries(s: StringTableSectionSize) -> nat {
    s.entries as nat + match s.client_side_entries {
        Some(n) => n as nat,
        None => 0nat,
    }
}

/// The entries of a run of string-table sections, client-side ones included.
pub open spec fn sections_entries(s: Seq<StringTableSectionSize>) -> nat
    decreases s.len(),
{
    if s.len() == 0 {
        0
    } else {
        sections_entries(s.drop_last()) + section_entries(s.last())
    }
}

pub open spec fn command_sections(c: DemoCommandSummary) -> Seq<StringTableSectionSize> {
    match c {
        DemoCommandSummary::StringTables(v) => v@,
        _ => Seq::empty(),
    }
}

/// The commands that carry network data: sign-on data and packets.
pub open spec fn demo_packets(s: Seq<DemoCommandSummary>) -> nat
    decreases s.len(),
{
    if s.len() == 0 {
        0
    } else {
        demo_packets(s.drop_last()) + if s.last() is Signon || s.last() is Packet {
            1nat
        } else {
            0
        }
    }
}

/// The string-table sections of a run of commands.
pub open spec fn demo_sections(s: Seq<DemoCommandSummary>) -> nat
    decreases s.len(),
{
    if s.len() == 0 {
        0
    } else {
        demo_sections(s.drop_last()) + command_sections(s.last()).len()
    }
}

/// The string-table entries of a run of commands.
pub open spec fn demo_entries(s: Seq<DemoCommandSummary>) -> nat
    decreases s.len(),
{
    if s.len() == 0 {
        0
    } else {
        demo_entries(s.drop_last()) + sections_entries(command_sections(s.last()))
    }
}

proof fn lemma_demo_totals_grow(s: Seq<DemoCommandSummary>, i: int)
    requires
        0 <= i <= s.len(),
    ensures
        demo_sections(s.take(i)) <= demo_sections(s),
        demo_entries(s.take(i)) <= demo_entries(s),
    decreases s.len() - i,
{
    if i < s.len() {
        lemma_demo_totals_grow(s, i + 1);
        assert(s.take(i + 1).drop_last() =~= s.take(i));
    } else {
        assert(s.take(i) =~= s);
    }
}

proof fn lemma_section_entries_grow(s: Seq<StringTableSectionSize>, j: int)
    requires
        0 <= j <= s.len(),
    ensures
        sections_entries(s.take(j)) <= sections_entries(s),
    decreases s.len() - j,
{
    if j < s.len() {
        lemma_section_entries_grow(s, j + 1);
        assert(s.take(j + 1).drop_last() =~= s.take(j));
    } else {
        assert(s.take(j) =~= s);
    }
}

/// What a structurally valid demo reports of itself: its commands, those that carry
/// network data, and the string-table sections and entries it carries, beside the
/// playback ticks and network protocol of its header.
pub fn demo_info(commands: &[DemoCommandSummary], playback_ticks: i32, network_protocol: i32) -> (r:
    SourceAbiDemoInfo)
    requires
        demo_sections(commands@) <= u64::MAX,
        demo_entries(commands@) <= u64::MAX,
    ensures
        r.command_count == commands@.len(),
        r.packet_count == demo_packets(commands@),
        r.playback_ticks == playback_ticks,
        r.network_protocol == network_protocol,
        r.string_table_section_count == demo_sections(commands@),
        r.string_table_entry_count == demo_entries(commands@),
{
    let mut packets: u64 = 0;
    let mut sections: u64 = 0;
    let mut entries: u64 = 0;
    let mut i: usize = 0;
    while i < commands.len()
        invariant
            i <= commands@.len(),
            demo_sections(commands@) <= u64::MAX,
            demo_entries(commands@) <= u64::MAX,
            packets == demo_packets(commands@.take(i as int)),
            packets <= i,
            sections == demo_sections(commands@.take(i as int)),
            entries == demo_entries(commands@.take(i as int)),
        decreases commands@.len() - i,
    {
        proof {
            assert(commands@.take(i + 1).drop_last() =~= commands@.take(i as int));
            lemma_demo_totals_grow(commands@, i + 1);
        }
        match &commands[i] {
            DemoCommandSummary::Signon => {
                packets = packets + 1;
            },
            DemoCommandSummary::Packet => {
                packets = packets + 1;
            },
            DemoCommandSummary::StringTables(table_sections) => {
                let ghost before = entries;
                sections = sections + table_sections.len() as u64;
                let mut j: usize = 0;
                while j < table_sections.len()
                    invariant
                        j <= table_sections@.len(),
                        before + sections_entries(table_sections@) <= u64::MAX,
                        entries == before + sections_entries(table_sections@.take(j as int)),
                    decreases table_sections@.len() - j,
                {
                    proof {
                        assert(table_sections@.take(j + 1).drop_last() =~= table_sections@.take(
                            j as int,
                        ));
                        lemma_section_entries_grow(table_sections@, j + 1);
                    }
                    let section = table_sections[j];
                    entries = entries + section.entries;
                    match section.client_side_entries {
                        Some(n) => {
                            entries = entries + n;
                        },
                        None => {},
                    }
                    j = j + 1;
                }
                assert(table_sections@.take(j as int) =~= table_sections@);
            },
            DemoCommandSummary::Other => {},
        }
        i = i + 1;
    }
    assert(commands@.take(i as int) =~= commands@);
    SourceAbiDemoInfo {
        command_count: commands.len() as u64,
        packet_count: packets,
        playback_ticks,
        network_protocol,
        string_table_section_count: sections,
        string_table_entry_count: entries,
    }
}

} // verus!
