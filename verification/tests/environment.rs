use rinha_fraud::index::parse_ivf_dims;
use rinha_fraud::settings::{
    api_direct_fd_default, api_epoll_default, build_order, checked_ivf_dims, fd_socket_path,
    index_config, locks_memory, parse_env_bool, parse_env_i32, parse_env_usize, parse_natural,
    parse_whole, worker_count, BuildOrder, IndexWords,
};

const NOTHING: IndexWords<'static> = IndexWords {
    index_mmap: None,
    ivf_grid: None,
    ivf_dims: None,
    ivf_threshold: None,
    ivf_global_plan: None,
    avx2_prefix4: None,
    packed_hot2: None,
    sector_decision: None,
    fast_decision_rule: None,
};

#[test]
fn numbers_read_as_the_standard_library_reads_them() {
    for text in [
        "", "0", "7", "+7", "-7", "+", "-", "++7", "007", "18446744073709551615",
        "18446744073709551616", "99999999999999999999999", " 7", "7 ", "7x", "2147483647",
        "2147483648", "-2147483648", "-2147483649", "+2147483647", "-0", "1e3",
    ] {
        assert_eq!(parse_natural(text.as_bytes()), text.parse::<usize>().ok(), "{text}");
        assert_eq!(parse_whole(text.as_bytes()), text.parse::<i32>().ok(), "{text}");
    }
}

#[test]
fn missing_and_malformed_numbers_take_the_default() {
    assert_eq!(parse_env_usize(Some("12"), 5), 12);
    assert_eq!(parse_env_usize(Some("x"), 5), 5);
    assert_eq!(parse_env_usize(None, 5), 5);
    assert_eq!(parse_env_i32(Some("-3"), 50, 0), 0);
    assert_eq!(parse_env_i32(Some("3"), 50, 0), 3);
    assert_eq!(parse_env_i32(None, 50, 0), 50);
    assert_eq!(parse_env_i32(Some("?"), 50, 128), 128);
}

#[test]
fn switches_are_off_for_zero_and_false() {
    for (text, on) in [
        ("0", false), ("false", false), ("FALSE", false), ("False", false), ("1", true),
        ("true", true), ("", true), ("00", true), ("no", true), ("falsee", true),
    ] {
        assert_eq!(parse_env_bool(Some(text), !on), on, "{text}");
    }
    assert!(parse_env_bool(None, true));
    assert!(!parse_env_bool(None, false));
}

#[test]
fn workers_and_switches_have_their_defaults() {
    assert_eq!(worker_count(None), 192);
    assert_eq!(worker_count(Some("many")), 192);
    assert_eq!(worker_count(Some("0")), 1);
    assert_eq!(worker_count(Some("7")), 7);
    assert!(api_epoll_default(None) && !api_epoll_default(Some("0")));
    assert!(!api_direct_fd_default(None) && api_direct_fd_default(Some("1")));
    assert!(!locks_memory(None) && locks_memory(Some("1")));
}

#[test]
fn grids_have_two_axes() {
    assert_eq!(parse_ivf_dims("2,4"), (2, 4));
    assert_eq!(parse_ivf_dims("13-2"), (13, 2));
    assert_eq!(parse_ivf_dims("+5,7"), (5, 7));
    for bad in ["", "2", "2,2", "1,4", "2,14", "a,3", "2,3,4", "2,3-4", "2 ,3", ",", "-"] {
        assert_eq!(checked_ivf_dims(bad), None, "{bad}");
    }
}

#[test]
fn words_of_the_environment_shape_the_index() {
    let plain = index_config(NOTHING, false).unwrap();
    assert!(plain.use_mmap && plain.grid.is_none() && !plain.global_plan && !plain.lanes);
    assert_eq!(plain.grid_threshold, 4_096);
    assert!(!plain.prefix4 && !plain.packed_hot2 && !plain.sector_decisions);
    let set = index_config(
        IndexWords {
            index_mmap: Some("0"),
            ivf_grid: Some("1"),
            ivf_dims: Some("4-7"),
            ivf_threshold: Some("9"),
            ivf_global_plan: Some("yes"),
            avx2_prefix4: Some("on"),
            packed_hot2: Some("on"),
            sector_decision: None,
            fast_decision_rule: Some("sector-majority"),
        },
        true,
    )
    .unwrap();
    assert!(!set.use_mmap && set.global_plan && set.prefix4 && set.packed_hot2);
    assert!(set.sector_decisions && set.lanes);
    assert_eq!(set.grid, Some((4, 7)));
    assert_eq!(set.grid_threshold, 9);
    let default_grid = index_config(IndexWords { ivf_grid: Some("1"), ..NOTHING }, true).unwrap();
    assert_eq!(default_grid.grid, Some((2, 4)));
    let unused = IndexWords { ivf_dims: Some("bad"), ..NOTHING };
    assert!(index_config(unused, true).is_some());
    let used = IndexWords { ivf_grid: Some("1"), ..unused };
    assert!(index_config(used, true).is_none());
    let other_rule = IndexWords { fast_decision_rule: Some("bucket"), ..NOTHING };
    assert!(!index_config(other_rule, true).unwrap().sector_decisions);
    let kept = IndexWords { index_mmap: Some("false"), ..NOTHING };
    assert!(index_config(kept, true).unwrap().use_mmap);
}

#[test]
fn files_are_ordered_by_bucket_unless_a_grid_is_named() {
    for word in [None, Some(""), Some("0"), Some("none"), Some("NONE")] {
        assert_eq!(build_order(word), Some(BuildOrder::ByBucket));
    }
    assert_eq!(build_order(Some("3,5")), Some(BuildOrder::ByCell { dims: (3, 5) }));
    assert_eq!(build_order(Some("3")), None);
}

#[test]
fn control_sockets_have_a_path() {
    assert_eq!(fd_socket_path(Some("/x.sock"), Some("/d"), None).as_deref(), Some("/x.sock"));
    assert_eq!(fd_socket_path(Some(""), Some("/d//"), Some("h")).as_deref(), Some("/d/h.sock"));
    assert_eq!(fd_socket_path(None, Some("/sockets"), None).as_deref(), Some("/sockets/api.sock"));
    assert_eq!(fd_socket_path(None, Some("///"), Some("\u{e9}")).as_deref(), Some("/\u{e9}.sock"));
    assert_eq!(fd_socket_path(None, Some(""), Some("h")), None);
    assert_eq!(fd_socket_path(None, None, Some("h")), None);
}
