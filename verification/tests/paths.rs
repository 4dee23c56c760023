use file_tunnel::commands::{
    build_item, reply_download, reply_error, reply_read_config, reply_read_dir, taked_size,
    CommandData, DirItem, DirItemInfo, FtPath,
};
use file_tunnel::downloader::{block_count, download_step, DownloadAction, DownloadState};
use file_tunnel::util::{format_size, PathUtil};

#[test]
fn relative_paths_lose_leading_separators() {
    let p = FtPath::new_relative("/srv/share".to_string(), "/a/b.txt".to_string());
    assert_eq!(p.path(), "a/b.txt");
    assert_eq!(p.root_path(), "/srv/share");
    assert_eq!(p.full_path(), "/srv/share/a/b.txt");
}

#[test]
fn absolute_paths_lose_their_root() {
    let p = FtPath::new_absolute("/srv/share".to_string(), "/srv/share/x/y".to_string());
    assert_eq!(p.path(), "x/y");
    assert_eq!(p.full_path(), "/srv/share/x/y");
}

#[test]
fn sibling_paths_share_the_root() {
    let p = FtPath::new_relative("/root".to_string(), "a".to_string());
    let q = p.create_relative("/b/c".to_string());
    assert_eq!(q.path(), "b/c");
    assert_eq!(q.root_path(), "/root");
    let r = p.create_absolute("/root/d".to_string());
    assert_eq!(r.path(), "d");
}

#[test]
fn roots_can_be_swapped() {
    let mut p = FtPath::new_relative("/serve".to_string(), "sub/f".to_string());
    p.reset_root("/client");
    assert_eq!(p.root_path(), "/client");
    assert_eq!(p.path(), "sub/f");
    let mut q = FtPath::new_relative("/x".to_string(), "prefpref/tail".to_string());
    q.replace_root_path("pref");
    assert_eq!(q.path(), "/tail");
}

#[test]
fn path_util_confines_traversal() {
    let util = PathUtil::new(&"/srv/share".to_string());
    assert_eq!(
        util.full_path(&"../../etc/passwd".to_string()),
        "/srv/share/etc/passwd"
    );
    assert_eq!(util.full_path(&"/a/b/".to_string()), "/srv/share/a/b");
    // removing one pass of dot-dot-slash may uncover another; all go
    assert_eq!(util.full_path(&"..././x".to_string()), "/srv/share/x");
}

#[test]
fn path_util_masks_its_prefix() {
    let util = PathUtil::new(&"/srv/share".to_string());
    assert_eq!(util.mask_path(&"/srv/share/a".to_string()), "//a");
}

#[test]
fn sizes_render_with_binary_units() {
    assert_eq!(format_size(0), "");
    assert_eq!(format_size(1), "");
    assert_eq!(format_size(2), "2B");
    assert_eq!(format_size(1024), "1024B");
    assert_eq!(format_size(1025), "1KB");
    assert_eq!(format_size(10 * 1024), "10KB");
    assert_eq!(format_size(1048577), "1MB");
    assert_eq!(format_size(3 * 1024 * 1024 * 1024), "3GB");
}

#[test]
fn listing_pages_report_their_progress() {
    assert_eq!(taked_size(10, 0, 25), 10);
    assert_eq!(taked_size(10, 20, 25), 25);
    let msg = reply_read_dir(1, Vec::new(), 7, 10, 0);
    assert_eq!(msg.status, 0);
    match msg.data {
        CommandData::ReadDirItem { total, taked_size, .. } => {
            assert_eq!(total, 7);
            assert_eq!(taked_size, 7);
        }
        _ => panic!("wrong reply variant"),
    }
}

#[test]
fn config_reply_reports_the_share_root() {
    let msg = reply_read_config(1);
    assert_eq!(msg.version, 1);
    assert_eq!(msg.status, 0);
    match msg.data {
        CommandData::ReadConfig { path } => assert_eq!(path, "/"),
        _ => panic!("wrong reply variant"),
    }
}

#[test]
fn download_reply_counts_its_bytes() {
    let msg = reply_download(1, vec![1, 2, 3]);
    match msg.data {
        CommandData::DownloadFile { data, data_size } => {
            assert_eq!(data, vec![1, 2, 3]);
            assert_eq!(data_size, 3);
        }
        _ => panic!("wrong reply variant"),
    }
    let err = reply_error(1, 500, "broken".to_string());
    assert_eq!(err.status, 500);
    match err.data {
        CommandData::Error { message } => assert_eq!(message, "broken"),
        _ => panic!("wrong reply variant"),
    }
}

#[test]
fn listing_entries_are_rekeyed_for_the_client() {
    let info = DirItemInfo::Dir { modified_at: 1, created_at: 2, item_count: 3 };
    let item: DirItem = build_item("/serve/root/sub/f", "serve/root/", "/asked", info);
    assert_eq!(item.path.root, "/asked");
    assert_eq!(item.path.path(), "sub/f");
    assert_eq!(item.path().root_path(), "/asked");
}

#[test]
fn blocks_cover_the_file() {
    assert_eq!(block_count(0, 65536), 0);
    assert_eq!(block_count(1, 65536), 1);
    assert_eq!(block_count(65536, 65536), 1);
    assert_eq!(block_count(65537, 65536), 2);
}

#[test]
fn download_walks_blocks_and_retries_checksums() {
    let st = DownloadState::begin(block_count(65536 + 10, 65536));
    assert!(st.more_blocks());
    let (st, act) = download_step(st, 65536, 65536, false);
    assert_eq!(act, DownloadAction::Proceed);
    assert_eq!(st.downloaded_size, 65536);
    let (st, act) = download_step(st, 10, 65536, true);
    assert_eq!(act, DownloadAction::Finished);
    assert!(!st.more_blocks() || st.block_idx == st.block_count);
}

#[test]
fn download_gives_up_after_retries() {
    let mut st = DownloadState::begin(1);
    let mut restarts = 0;
    loop {
        let (next, act) = download_step(st, 5, 65536, false);
        match act {
            DownloadAction::Restart => {
                restarts += 1;
                assert_eq!(next.block_idx, 0);
                assert_eq!(next.downloaded_size, 0);
                st = next;
            }
            DownloadAction::Abort => break,
            other => panic!("unexpected action: {:?}", other),
        }
    }
    assert_eq!(restarts, 2);
}
