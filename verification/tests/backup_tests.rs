use ficswitch::backup::{new_backup_manifest, order_backups, BackupManifest, Timestamp};
use ficswitch::steam::Branch;

#[test]
fn backup_manifest_fields() {
    // 2024-03-05 06:07:08 UTC
    let ts = Timestamp { secs: 1709618828, nanos: 123 };
    let m = new_backup_manifest(ts, &Branch::Stable, Some("test-create"), 2, 5).unwrap();
    assert_eq!(m.id, "20240305_060708");
    assert_eq!(m.id.len(), 15);
    assert_eq!(&m.id[8..9], "_");
    assert_eq!(m.branch, "stable");
    assert_eq!(m.label.as_deref(), Some("test-create"));
    assert_eq!(m.save_count, 2);
    assert_eq!(m.blueprint_count, 5);
    assert_eq!(m.timestamp, ts);
    let m = new_backup_manifest(ts, &Branch::Experimental, None, 0, 0).unwrap();
    assert_eq!(m.branch, "experimental");
    assert!(m.label.is_none());
    assert!(new_backup_manifest(Timestamp { secs: i64::MAX, nanos: 0 }, &Branch::Stable, None, 0, 0).is_none());
}

fn mk(id: &str, secs: i64, nanos: u32) -> BackupManifest {
    BackupManifest {
        id: id.to_string(),
        label: None,
        branch: "stable".to_string(),
        timestamp: Timestamp { secs, nanos },
        save_count: 0,
        blueprint_count: 0,
    }
}

#[test]
fn backups_newest_first_stable() {
    let v = vec![mk("a", 10, 0), mk("b", 30, 0), mk("c", 10, 0), mk("d", 30, 5), mk("e", 20, 0)];
    let ids: Vec<String> = order_backups(v).into_iter().map(|b| b.id).collect();
    assert_eq!(ids, vec!["d", "b", "e", "a", "c"]);
    assert!(order_backups(Vec::new()).is_empty());
}

#[test]
fn backup_id_has_date_time_shape() {
    let ts = Timestamp { secs: 1431648000, nanos: 0 };
    let m = new_backup_manifest(ts, &Branch::Stable, None, 0, 0).unwrap();
    assert_eq!(m.id, "20150515_000000");
    let last = Timestamp { secs: 253402300799, nanos: 999_999_999 };
    let m = new_backup_manifest(last, &Branch::Stable, None, 0, 0).unwrap();
    assert_eq!(m.id.len(), 15);
    assert_eq!(&m.id[8..9], "_");
    assert!(m.id.chars().enumerate().all(|(i, c)| i == 8 || c.is_ascii_digit()));
}
