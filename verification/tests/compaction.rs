use bytes::Bytes;
use hatp_engine::compaction::{
    CompactionKind, CompactionLayout, CompactionPicker, CompactionPolicy, FileMeta,
    MinOverlappingRatioPicker, TieredPicker,
};

fn meta(id: u64, level: u32, min: u8, max: u8) -> FileMeta {
    FileMeta {
        file_id: id,
        level,
        bytes: 100,
        min_key: Bytes::from(vec![min]),
        max_key: Bytes::from(vec![max]),
        created_at: 0,
    }
}

#[test]
fn compaction_picker_trait_reports_layouts() {
    let lazy = MinOverlappingRatioPicker::default();
    assert_eq!(lazy.layout(0), CompactionLayout::Tiered);
    assert_eq!(lazy.layout(1), CompactionLayout::LazyLeveling);

    let tiered = TieredPicker::default();
    assert_eq!(tiered.layout(0), CompactionLayout::Tiered);
    assert_eq!(tiered.layout(1), CompactionLayout::Tiered);
    assert_eq!(tiered.layout(2), CompactionLayout::Leveled);
}

#[test]
fn compaction_picker_l0_trigger_picks_job() {
    let files = vec![meta(1, 0, b'a', b'm'), meta(2, 0, b'n', b'z')];
    let picker = MinOverlappingRatioPicker {
        l0_trigger: 2,
        max_level: 6,
        policy: CompactionPolicy::LazyLeveling,
    };
    let job = picker.pick(&files).expect("2 L0 files must trigger L0ToL1");
    assert_eq!(job.kind, CompactionKind::L0ToL1);
    assert_eq!(job.source_level, 0);
    assert_eq!(job.target_level, 1);

    // Below the trigger threshold → no job selected.
    let picker = MinOverlappingRatioPicker {
        l0_trigger: 4,
        max_level: 6,
        policy: CompactionPolicy::LazyLeveling,
    };
    assert!(picker.pick(&files).is_none());
}

#[test]
fn tiered_picker_picks_with_tiered_capacity() {
    let picker = TieredPicker::default();
    // TieredPicker internally uses tiered capacity; construct a few files to verify no panic
    // and return reproducible results (tiered strategy within L0 trigger threshold).
    let files = vec![meta(1, 0, b'a', b'm')];
    let _ = picker.pick(&files);
    // Insufficient input should return None (single file does not trigger).
    assert!(picker.pick(&files).is_none());
}

#[test]
fn a_young_level_job_takes_the_overlapping_files_below() {
    let files = vec![
        meta(5, 0, b'a', b'c'),
        meta(4, 0, b'b', b'd'),
        meta(1, 1, b'c', b'e'),
        meta(2, 1, b'x', b'z'),
    ];
    let picker = MinOverlappingRatioPicker {
        l0_trigger: 2,
        max_level: 6,
        policy: CompactionPolicy::LazyLeveling,
    };
    let job = picker.pick(&files).expect("job");
    assert_eq!(job.inputs, vec![1, 4, 5]);
    assert_eq!(job.estimated_bytes, 300);
    assert!(files[0].overlaps(&files[1]));
    assert!(!files[0].overlaps(&files[3]));
}
