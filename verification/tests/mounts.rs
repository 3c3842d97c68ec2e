use diskharitasi::mounts::{is_local_type_exec, mount_text_readable, parse_mounts, text_lines, unescape_mount};
use diskharitasi::uri::file_uri;

#[test]
fn octal_escapes() {
    assert_eq!(unescape_mount(b"/media/My\\040Disk"), b"/media/My Disk".to_vec());
    assert_eq!(unescape_mount(b"a\\134b"), b"a\\b".to_vec());
    assert_eq!(unescape_mount(b"a\\04"), b"a\\04".to_vec());
    assert_eq!(unescape_mount(b"a\\0x9"), b"a\\0x9".to_vec());
    assert_eq!(unescape_mount(b"\\377"), vec![0xff]);
}

#[test]
fn lines_like_str_lines() {
    let l = text_lines(b"a\r\nb\n\nc\r");
    assert_eq!(l, vec![b"a".to_vec(), b"b".to_vec(), b"".to_vec(), b"c\r".to_vec()]);
    assert!(text_lines(b"").is_empty());
    assert_eq!(text_lines(b"x\n"), vec![b"x".to_vec()]);
}

const SAMPLE: &[u8] = b"sysfs /sys sysfs rw 0 0\n\
/dev/sda2 / ext4 rw,relatime 0 0\n\
/dev/sda1 /boot/efi vfat rw 0 0\n\
/dev/loop0 /snap/core/1 squashfs ro 0 0\n\
/dev/sdb1 /snap/data ext4 rw 0 0\n\
/dev/sdb1 /snapshots btrfs rw 0 0\n\
nas:/share /mnt/nas nfs4 rw 0 0\n\
/dev/sda2 / ext4 rw 0 0\n\
/dev/sdc1 /media/My\\040Disk exfat rw 0 0\n\
/dev/sdd1 /media/x/ ext4 rw 0 0\n\
/dev/sdd1 /media/x ext4 rw 0 0\n\
short line\n";

#[test]
fn mount_table_filters_and_dedups() {
    assert!(mount_text_readable(SAMPLE));
    let m = parse_mounts(SAMPLE);
    let paths: Vec<Vec<u8>> = m.iter().map(|e| e.path.clone()).collect();
    assert_eq!(
        paths,
        vec![
            b"/".to_vec(),
            b"/boot/efi".to_vec(),
            b"/snapshots".to_vec(),
            b"/mnt/nas".to_vec(),
            b"/media/My Disk".to_vec(),
            b"/media/x/".to_vec(),
        ]
    );
    let types: Vec<&str> = m.iter().map(|e| e.fstype.as_str()).collect();
    assert_eq!(types, vec!["ext4", "vfat", "btrfs", "nfs4", "exfat", "ext4"]);
    assert!(m.iter().all(|e| e.space.is_none()));
}

#[test]
fn unreadable_escapes_are_reported() {
    assert!(!mount_text_readable(b"/dev/x /a\\777b ext4 rw 0 0\n"));
    assert!(mount_text_readable(b"/dev/x /a\\777b tmpfs rw 0 0\n"));
}

#[test]
fn local_and_network_types() {
    assert!(is_local_type_exec(b"ext4"));
    assert!(is_local_type_exec(b"fuseblk"));
    assert!(!is_local_type_exec(b"nfs"));
    assert!(!is_local_type_exec(b"tmpfs"));
}

#[test]
fn file_uris() {
    assert_eq!(file_uri(b"/home/a b/x~_-.y"), "file:///home/a%20b/x~_-.y");
    assert_eq!(file_uri(&[b'/', 0xc3, 0xa7]), "file:///%C3%A7");
    assert_eq!(file_uri(b""), "file://");
}
