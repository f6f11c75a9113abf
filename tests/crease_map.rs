use crease_map::anchor::{Anchor, MultiBufferRow, MultiBufferSnapshot, Point};
use crease_map::crease::{Crease, CreaseMetadata};
use crease_map::crease_map::{CreaseId, CreaseMap};
use std::ops::Range;

fn line_range(snapshot: &MultiBufferSnapshot, row: u32) -> Range<Anchor> {
    snapshot.anchor_before(Point::new(row, 0))..snapshot.anchor_after(Point::new(row, 5))
}

fn start_row<R>(crease: &Crease<R>, snapshot: &MultiBufferSnapshot) -> u32 {
    crease.range().start.to_point(snapshot).row
}

#[test]
fn test_insert_and_remove_creases() {
    let text = "line1\nline2\nline3\nline4\nline5";
    let snapshot = MultiBufferSnapshot::from_text(text);
    let mut crease_map: CreaseMap<&str> = CreaseMap::new(&snapshot);

    let creases = vec![
        Crease::new(
            snapshot.anchor_before(Point::new(1, 0))..snapshot.anchor_after(Point::new(1, 5)),
            "first",
        ),
        Crease::new(
            snapshot.anchor_before(Point::new(3, 0))..snapshot.anchor_after(Point::new(3, 5)),
            "second",
        ),
    ];
    let crease_ids = crease_map.insert(creases, &snapshot);
    assert_eq!(crease_ids.len(), 2);

    let crease_snapshot = crease_map.snapshot();
    assert!(crease_snapshot.query_row(MultiBufferRow(1), &snapshot).is_some());
    assert!(crease_snapshot.query_row(MultiBufferRow(3), &snapshot).is_some());

    crease_map.remove(crease_ids, &snapshot);

    let crease_snapshot = crease_map.snapshot();
    assert!(crease_snapshot.query_row(MultiBufferRow(1), &snapshot).is_none());
    assert!(crease_snapshot.query_row(MultiBufferRow(3), &snapshot).is_none());
}

#[test]
fn test_creases_in_range() {
    let text = "line1\nline2\nline3\nline4\nline5\nline6\nline7";
    let snapshot = MultiBufferSnapshot::from_text(text);
    let mut crease_map: CreaseMap<()> = CreaseMap::new(&snapshot);

    let creases = vec![
        Crease::new(
            snapshot.anchor_before(Point::new(1, 0))..snapshot.anchor_after(Point::new(1, 5)),
            (),
        ),
        Crease::new(
            snapshot.anchor_before(Point::new(3, 0))..snapshot.anchor_after(Point::new(3, 5)),
            (),
        ),
        Crease::new(
            snapshot.anchor_before(Point::new(5, 0))..snapshot.anchor_after(Point::new(5, 5)),
            (),
        ),
    ];
    crease_map.insert(creases, &snapshot);

    let crease_snapshot = crease_map.snapshot();

    let range = MultiBufferRow(0)..MultiBufferRow(7);
    let creases = crease_snapshot.creases_in_range(range, &snapshot);
    assert_eq!(creases.len(), 3);

    let range = MultiBufferRow(2)..MultiBufferRow(5);
    let creases = crease_snapshot.creases_in_range(range, &snapshot);
    assert_eq!(creases.len(), 1);
    assert_eq!(creases[0].range().start.to_point(&snapshot).row, 3);

    let range = MultiBufferRow(0)..MultiBufferRow(2);
    let creases = crease_snapshot.creases_in_range(range, &snapshot);
    assert_eq!(creases.len(), 1);
    assert_eq!(creases[0].range().start.to_point(&snapshot).row, 1);

    let range = MultiBufferRow(6)..MultiBufferRow(7);
    let creases = crease_snapshot.creases_in_range(range, &snapshot);
    assert_eq!(creases.len(), 0);
}

#[test]
fn from_text_measures_lines_in_bytes() {
    let snapshot = MultiBufferSnapshot::from_text("ab\n\ncde");
    assert_eq!(snapshot.line_count(), 3);
    assert_eq!(snapshot.anchor_after(Point::new(0, 10)).to_point(&snapshot), Point::new(0, 2));
    assert_eq!(snapshot.anchor_before(Point::new(1, 4)).to_point(&snapshot), Point::new(1, 0));
    assert_eq!(snapshot.anchor_before(Point::new(9, 0)).to_point(&snapshot), Point::new(2, 3));
    let empty = MultiBufferSnapshot::from_text("");
    assert_eq!(empty.line_count(), 1);
}

#[test]
fn identities_increase_across_batches() {
    let snapshot = MultiBufferSnapshot::from_text("a\nb\nc\nd");
    let mut map: CreaseMap<u8> = CreaseMap::new(&snapshot);
    let first = map.insert(
        vec![Crease::new(line_range(&snapshot, 0), 0), Crease::new(line_range(&snapshot, 2), 1)],
        &snapshot,
    );
    let second = map.insert(vec![Crease::new(line_range(&snapshot, 1), 2)], &snapshot);
    assert_eq!(first, vec![CreaseId(0), CreaseId(1)]);
    assert_eq!(second, vec![CreaseId(2)]);
    let empty = map.insert(Vec::new(), &snapshot);
    assert!(empty.is_empty());
    assert_eq!(map.snapshot().len(), 3);
}

#[test]
fn query_row_finds_only_the_start_row() {
    let snapshot = MultiBufferSnapshot::from_text("line1\nline2\nline3\nline4\nline5");
    let mut map: CreaseMap<&str> = CreaseMap::new(&snapshot);
    let range = snapshot.anchor_before(Point::new(1, 0))..snapshot.anchor_after(Point::new(3, 5));
    map.insert(vec![Crease::new(range, "fold")], &snapshot);
    let creases = map.snapshot();
    let found = creases.query_row(MultiBufferRow(1), &snapshot).unwrap();
    assert_eq!(*found.render(), "fold");
    assert_eq!(found.range().end.to_point(&snapshot), Point::new(3, 5));
    for row in [0, 2, 3, 4, 7] {
        assert!(creases.query_row(MultiBufferRow(row), &snapshot).is_none());
    }
}

#[test]
fn query_row_skips_invalid_start() {
    let long = MultiBufferSnapshot::from_text("line1\nline2\nline3\nline4\nline5");
    let short = MultiBufferSnapshot::from_text("line1\nline2");
    let mut map: CreaseMap<()> = CreaseMap::new(&long);
    map.insert(vec![Crease::new(line_range(&long, 3), ())], &long);
    let creases = map.snapshot();
    let start = creases.query_row(MultiBufferRow(3), &long).unwrap().range().start;
    assert!(!start.is_valid(&short));
    assert_eq!(start.to_point(&short).row, 1);
    assert!(creases.query_row(MultiBufferRow(1), &short).is_none());
}

#[test]
fn remove_erases_one_of_two_coincident_creases() {
    let snapshot = MultiBufferSnapshot::from_text("line1\nline2\nline3");
    let mut map: CreaseMap<u8> = CreaseMap::new(&snapshot);
    let a = map.insert(vec![Crease::new(line_range(&snapshot, 1), 1)], &snapshot);
    let b = map.insert(vec![Crease::new(line_range(&snapshot, 1), 2)], &snapshot);
    map.remove(a.clone(), &snapshot);
    let items = map.snapshot().crease_items_with_offsets(&snapshot);
    assert_eq!(items, vec![(b[0], Point::new(1, 0)..Point::new(1, 5))]);
    map.remove(a, &snapshot);
    assert_eq!(map.snapshot().crease_items_with_offsets(&snapshot), items);
    map.remove(vec![CreaseId(40)], &snapshot);
    assert_eq!(map.snapshot().crease_items_with_offsets(&snapshot), items);
}

#[test]
fn remove_two_inserted_in_one_batch_with_equal_ranges() {
    let snapshot = MultiBufferSnapshot::from_text("line1\nline2\nline3");
    let mut map: CreaseMap<u8> = CreaseMap::new(&snapshot);
    let ids = map.insert(
        vec![Crease::new(line_range(&snapshot, 1), 1), Crease::new(line_range(&snapshot, 1), 2)],
        &snapshot,
    );
    map.remove(ids, &snapshot);
    assert!(map.snapshot().crease_items_with_offsets(&snapshot).is_empty());
}

#[test]
fn items_with_offsets_follow_range_order() {
    let snapshot = MultiBufferSnapshot::from_text("line1\nline2\nline3\nline4\nline5");
    let mut map: CreaseMap<()> = CreaseMap::new(&snapshot);
    let outer = snapshot.anchor_before(Point::new(1, 0))..snapshot.anchor_after(Point::new(4, 5));
    map.insert(vec![Crease::new(line_range(&snapshot, 2), ())], &snapshot);
    map.insert(
        vec![Crease::new(line_range(&snapshot, 0), ()), Crease::new(outer, ()), Crease::new(line_range(&snapshot, 4), ())],
        &snapshot,
    );
    let items = map.snapshot().crease_items_with_offsets(&snapshot);
    let ids: Vec<CreaseId> = items.iter().map(|(id, _)| *id).collect();
    assert_eq!(ids, vec![CreaseId(1), CreaseId(2), CreaseId(0), CreaseId(3)]);
    assert_eq!(items[1].1, Point::new(1, 0)..Point::new(4, 5));
}

#[test]
fn unsorted_batch_is_not_reordered() {
    let snapshot = MultiBufferSnapshot::from_text("line1\nline2\nline3\nline4");
    let mut map: CreaseMap<()> = CreaseMap::new(&snapshot);
    map.insert(
        vec![Crease::new(line_range(&snapshot, 3), ()), Crease::new(line_range(&snapshot, 1), ())],
        &snapshot,
    );
    let rows: Vec<u32> = map
        .snapshot()
        .crease_items_with_offsets(&snapshot)
        .iter()
        .map(|(_, range)| range.start.row)
        .collect();
    assert_eq!(rows, vec![3, 1]);
}

#[test]
fn creases_in_range_end_boundary() {
    let snapshot = MultiBufferSnapshot::from_text("line1\nline2\nline3\nline4\nline5");
    let mut map: CreaseMap<()> = CreaseMap::new(&snapshot);
    let two_rows = snapshot.anchor_before(Point::new(1, 0))..snapshot.anchor_after(Point::new(2, 5));
    map.insert(vec![Crease::new(two_rows, ())], &snapshot);
    let creases = map.snapshot();
    assert_eq!(creases.creases_in_range(MultiBufferRow(1)..MultiBufferRow(2), &snapshot).len(), 0);
    assert_eq!(creases.creases_in_range(MultiBufferRow(1)..MultiBufferRow(3), &snapshot).len(), 1);
    assert_eq!(creases.creases_in_range(MultiBufferRow(2)..MultiBufferRow(5), &snapshot).len(), 0);
}

#[test]
fn snapshot_keeps_its_version() {
    let snapshot = MultiBufferSnapshot::from_text("line1\nline2\nline3\nline4");
    let mut map: CreaseMap<()> = CreaseMap::new(&snapshot);
    let ids = map.insert(vec![Crease::new(line_range(&snapshot, 1), ())], &snapshot);
    let before = map.snapshot();
    map.insert(vec![Crease::new(line_range(&snapshot, 2), ())], &snapshot);
    map.remove(ids, &snapshot);
    assert_eq!(before.len(), 1);
    assert!(before.query_row(MultiBufferRow(1), &snapshot).is_some());
    assert!(before.query_row(MultiBufferRow(2), &snapshot).is_none());
    let after = map.snapshot();
    assert_eq!(after.len(), 1);
    assert!(after.query_row(MultiBufferRow(1), &snapshot).is_none());
    assert!(after.query_row(MultiBufferRow(2), &snapshot).is_some());
}

#[test]
fn with_metadata_keeps_range_and_payload() {
    let snapshot = MultiBufferSnapshot::from_text("line1\nline2");
    let range = line_range(&snapshot, 1);
    let crease = Crease::new(range.clone(), 7u32);
    assert!(crease.metadata().is_none());
    let metadata = CreaseMetadata { icon: "folder".to_string(), label: "Imports".to_string() };
    let tagged = crease.with_metadata(metadata.clone());
    assert_eq!(*tagged.range(), range);
    assert_eq!(*tagged.render(), 7);
    assert_eq!(tagged.metadata().as_ref(), Some(&metadata));
    assert_eq!(start_row(&tagged, &snapshot), 1);
}
