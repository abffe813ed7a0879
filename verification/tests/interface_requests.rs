use lib::abi::{
    demo_info, search_path_flags, search_plan_request, snapshot_entities, snapshot_entity_count,
    DemoCommandSummary, SearchFilter, SearchPathFlags, SnapshotEntityRecord,
    SourceAbiSnapshotEntity, StringTableSectionSize, SOURCE_ABI_BUFFER_TOO_SMALL,
    SOURCE_ABI_INVALID_ARGUMENT,
};

#[test]
fn decodes_each_filter_code_of_a_search_plan() {
    assert_eq!(search_plan_request(2, true, 1, 4, 0), Ok(SearchFilter::All));
    assert_eq!(search_plan_request(2, true, 1, 4, 1), Ok(SearchFilter::CullPack));
    assert_eq!(search_plan_request(2, true, 1, 4, 2), Ok(SearchFilter::CullNonPack));
    assert_eq!(search_plan_request(2, true, 1, 4, 3), Err(SOURCE_ABI_INVALID_ARGUMENT));
    assert_eq!(search_plan_request(0, false, 0, 0, 0), Ok(SearchFilter::All));
}

#[test]
fn refuses_a_search_plan_request_it_cannot_read() {
    assert_eq!(search_plan_request(65536, true, 0, 0, 0), Ok(SearchFilter::All));
    assert_eq!(search_plan_request(65537, true, 0, 0, 0), Err(SOURCE_ABI_INVALID_ARGUMENT));
    assert_eq!(search_plan_request(1, false, 0, 0, 0), Err(SOURCE_ABI_INVALID_ARGUMENT));
    assert_eq!(search_plan_request(1, true, 2, 0, 0), Err(SOURCE_ABI_INVALID_ARGUMENT));
    assert_eq!(search_plan_request(1, true, 1, 4096, 0), Ok(SearchFilter::All));
    assert_eq!(search_plan_request(1, true, 1, 4097, 0), Err(SOURCE_ABI_INVALID_ARGUMENT));
    assert_eq!(search_plan_request(1, true, 0, 3, 0), Err(SOURCE_ABI_INVALID_ARGUMENT));
}

#[test]
fn reads_the_flags_of_a_search_path() {
    assert_eq!(
        search_path_flags(3, 4),
        Some(SearchPathFlags { pack: true, map: true, by_request_only: false, excluded: false })
    );
    assert_eq!(
        search_path_flags(12, 4),
        Some(SearchPathFlags { pack: false, map: false, by_request_only: true, excluded: true })
    );
    assert_eq!(
        search_path_flags(0, 0),
        Some(SearchPathFlags { pack: false, map: false, by_request_only: false, excluded: false })
    );
    // A map that is no pack, an unknown flag, and an ID too long are refused.
    assert_eq!(search_path_flags(2, 4), None);
    assert_eq!(search_path_flags(16, 4), None);
    assert_eq!(search_path_flags(1, 4097), None);
}

#[test]
fn bounds_the_entities_of_a_snapshot() {
    assert_eq!(snapshot_entity_count(3, 8, true), Ok(3));
    assert_eq!(snapshot_entity_count(0, 8, false), Ok(0));
    assert_eq!(snapshot_entity_count(9, 8, true), Err(SOURCE_ABI_BUFFER_TOO_SMALL));
    assert_eq!(snapshot_entity_count(3, 8, false), Err(SOURCE_ABI_INVALID_ARGUMENT));
}

#[test]
fn keeps_a_snapshot_s_entities_in_order_or_refuses_them() {
    let entities = [
        SourceAbiSnapshotEntity { entity_index: 4, serial_number: -2, class_id: 1, reserved: 0 },
        SourceAbiSnapshotEntity { entity_index: 9, serial_number: 7, class_id: 0, reserved: 0 },
    ];
    assert_eq!(
        snapshot_entities(&entities, 2),
        Some(vec![
            SnapshotEntityRecord { entity_index: 4, serial_number: -2, class_id: 1 },
            SnapshotEntityRecord { entity_index: 9, serial_number: 7, class_id: 0 },
        ])
    );
    assert_eq!(snapshot_entities(&entities, 1), None);
    let reserved =
        [SourceAbiSnapshotEntity { entity_index: 4, serial_number: 0, class_id: 0, reserved: 1 }];
    assert_eq!(snapshot_entities(&reserved, 2), None);
    assert_eq!(snapshot_entities(&[], 0), Some(vec![]));
}

#[test]
fn counts_what_a_demo_carries() {
    let commands = vec![
        DemoCommandSummary::Signon,
        DemoCommandSummary::StringTables(vec![
            StringTableSectionSize { entries: 2, client_side_entries: Some(3) },
            StringTableSectionSize { entries: 4, client_side_entries: None },
        ]),
        DemoCommandSummary::Other,
        DemoCommandSummary::Packet,
        DemoCommandSummary::Packet,
        DemoCommandSummary::StringTables(vec![]),
    ];
    let info = demo_info(&commands, 66, 24);
    assert_eq!(info.command_count, 6);
    assert_eq!(info.packet_count, 3);
    assert_eq!(info.playback_ticks, 66);
    assert_eq!(info.network_protocol, 24);
    assert_eq!(info.string_table_section_count, 2);
    assert_eq!(info.string_table_entry_count, 9);
    let empty = demo_info(&[], 0, 0);
    assert_eq!(empty.command_count, 0);
    assert_eq!(empty.string_table_entry_count, 0);
}
