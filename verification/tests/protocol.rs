use std::collections::{HashMap, HashSet};
use std::hash::{BuildHasherDefault, Hash, Hasher};
use std::path::PathBuf;

use lightwatch::dist::{
    bucket_of, bucket_range, estimate_total, fold_entries, sum_samples, Dist, MAX_BUCKET,
};
use lightwatch::hashing::{IntHasher, SCATTER};
use lightwatch::proto::{
    Event, Frame, FunctionId, Hello, Location, PathId, Register, TypeId, DEFAULT_WINDOW_MS,
    SCHEMA_VERSION,
};
use lightwatch::socket::{
    candidate_sockets, claim, probe_socket_dir, resolve_socket_dir, Candidate, Claim, SocketDir,
    SOCKET_DIRECTORY, SOCKET_FILE,
};

#[test]
fn every_value_lands_in_a_bucket_that_contains_it() {
    let mut v = 0u64;
    while v < 1 << 20 {
        let (lo, hi) = bucket_range(bucket_of(v));
        assert!(lo <= v && v <= hi, "{v} fell outside [{lo}, {hi}]");
        v = v + 1 + v / 97;
    }
}

#[test]
fn buckets_are_contiguous_and_strictly_ordered() {
    let mut previous_hi = None;
    for index in 0..=MAX_BUCKET {
        let (lo, hi) = bucket_range(index);
        assert!(lo <= hi, "bucket {index} is inverted");
        if let Some(prev) = previous_hi {
            assert_eq!(lo, prev + 1, "gap or overlap before bucket {index}");
        }
        previous_hi = Some(hi);
    }
}

#[test]
fn bucketing_error_stays_under_the_documented_bound() {
    for v in [32u64, 100, 1_000, 44_720_000, u32::MAX as u64] {
        let (lo, hi) = bucket_range(bucket_of(v));
        let width = (hi - lo + 1) as f64;
        assert!(width / lo as f64 <= 0.0625, "{v} exceeded 6.25%");
    }
}

#[test]
fn max_bucket_is_the_real_maximum() {
    assert_eq!(bucket_of(u64::MAX), MAX_BUCKET);
}

#[test]
fn raw_and_bucketed_forms_agree() {
    let raw = Dist::Raw { v: vec![5, 5, 900, 44_720_000] };
    let bucketed = Dist::Buckets { b: raw.to_buckets() };
    assert_eq!(raw.to_buckets(), bucketed.to_buckets());
    assert_eq!(raw.count(), bucketed.count());
}

#[test]
fn duplicate_indices_from_a_client_merge_instead_of_double_counting() {
    let sloppy = Dist::Buckets { b: vec![(7, 2), (3, 1), (7, 5)] };
    assert_eq!(sloppy.to_buckets(), vec![(3, 1), (7, 7)]);
    assert_eq!(sloppy.count(), 8);
}

#[test]
fn small_values_have_a_bucket_each_and_larger_ones_share() {
    assert_eq!(bucket_range(0), (0, 0));
    assert_eq!(bucket_range(31), (31, 31));
    assert_eq!(bucket_range(32), (32, 33));
    assert_eq!(bucket_of(32), 32);
    assert_eq!(bucket_of(33), 32);
    assert_eq!(bucket_of(34), 33);
    assert_eq!(bucket_range(MAX_BUCKET).1, u64::MAX);
}

#[test]
fn an_index_past_the_last_bucket_still_reads_as_a_range() {
    let (lo, hi) = bucket_range(MAX_BUCKET + 1);
    assert!(lo <= hi);
}

#[test]
fn a_weight_that_overflows_stays_at_its_limit() {
    let folded = fold_entries(&vec![(4, u32::MAX), (4, 1)]);
    assert_eq!(folded, vec![(4, u32::MAX)]);
}

#[test]
fn an_empty_distribution_counts_nothing() {
    assert!(Dist::empty().is_empty());
    assert_eq!(Dist::empty().count(), 0);
    assert!(Dist::empty().to_buckets().is_empty());
    assert!(!Dist::Raw { v: vec![0] }.is_empty());
    let copied = Dist::Raw { v: vec![7, 7] }.duplicate();
    assert_eq!(copied, Dist::Raw { v: vec![7, 7] });
}

#[test]
fn a_total_is_exact_from_samples_and_close_from_buckets() {
    assert_eq!(sum_samples(&vec![3, 4, 5]), 12);
    assert_eq!(sum_samples(&vec![u64::MAX, 1]), u64::MAX);
    // Five and twenty have buckets of their own, so nothing is lost.
    assert_eq!(estimate_total(&vec![(5, 2), (20, 1)]), 30);
    // Thirty-two and thirty-three share one, and count as its middle.
    assert_eq!(estimate_total(&vec![(32, 2)]), 64);
    assert_eq!(estimate_total(&vec![(MAX_BUCKET, u32::MAX)]), u64::MAX);
}

fn sample_frame() -> Frame {
    Frame {
        seq: 7,
        t_ns: 700_000_000,
        registers: vec![
            Register::Function {
                id: FunctionId(1),
                name: "thumbnail::get_or_make".into(),
                module: Some("lightphotos".into()),
                location: Some(Location {
                    file: "src/thumbnail.rs".into(),
                    line: 407,
                    column: Some(12),
                }),
            },
            Register::Type { id: TypeId(1), name: "Thumbnail".into(), location: None },
            Register::Path { id: PathId(1), parent: PathId(0), func: FunctionId(1) },
            Register::Path { id: PathId(2), parent: PathId(1), func: FunctionId(2) },
        ],
        events: vec![
            Event::Calls {
                func: FunctionId(1),
                count: 16,
                ns: Dist::Raw { v: vec![2_110_000, 5_750_000] },
            },
            Event::Edge { from: FunctionId(1), to: FunctionId(2), count: 16 },
            Event::Stack { path: PathId(2), count: 16, self_ns: 4_300_000 },
            Event::Census {
                ty: TypeId(1),
                live: 3,
                bytes: 900,
                sizes: Dist::Raw { v: vec![300, 300, 300] },
            },
        ],
    }
}

#[test]
fn a_path_node_is_always_numbered_above_the_one_it_hangs_off() {
    // The daemon may lean on this to register a frame's paths in one
    // pass, so it is a property of the protocol rather than an accident
    // of how the Rust probe interns.
    let frame = sample_frame();
    for register in &frame.registers {
        if let Register::Path { id, parent, .. } = register {
            assert!(id.0 > parent.0, "{id:?} hangs off {parent:?}");
        }
    }
}

#[test]
fn a_copy_of_a_registration_is_the_same_registration() {
    for register in sample_frame().registers {
        assert_eq!(register.clone(), register);
    }
}

#[test]
fn a_greeting_speaks_the_current_schema() {
    let hello = Hello::new("lightphotos", "lightwatch-probe", 3218, 1_700_000_000_000);
    assert_eq!(hello.schema, SCHEMA_VERSION);
    assert_eq!(hello.app, "lightphotos");
    assert_eq!(hello.source, "lightwatch-probe");
    assert_eq!(hello.pid, 3218);
    assert_eq!(hello.started_unix_ms, 1_700_000_000_000);
    assert_eq!(hello.window_ms, DEFAULT_WINDOW_MS);
    assert_eq!(hello.clone(), hello);
}

fn path_of(dir: SocketDir<PathBuf>) -> PathBuf {
    match dir {
        SocketDir::At(path) => path,
        SocketDir::Under(path) => path.join(SOCKET_DIRECTORY),
    }
}

#[test]
fn socket_the_socket_directory_prefers_the_explicit_override_then_the_platform_default() {
    let explicit = Some(PathBuf::from("/run/chosen"));
    let tmpdir = Some(PathBuf::from("/var/tmp-per-user"));
    let xdg = Some(PathBuf::from("/run/user/501"));
    let fallback = PathBuf::from("/tmp");

    assert_eq!(
        path_of(resolve_socket_dir(
            explicit.clone(),
            tmpdir.clone(),
            xdg.clone(),
            true,
            fallback.clone()
        )),
        PathBuf::from("/run/chosen")
    );
    assert_eq!(
        path_of(resolve_socket_dir(None, tmpdir.clone(), xdg.clone(), true, fallback.clone())),
        PathBuf::from("/var/tmp-per-user/lightwatch")
    );
    assert_eq!(
        path_of(resolve_socket_dir(None, tmpdir, xdg.clone(), false, fallback.clone())),
        PathBuf::from("/run/user/501/lightwatch")
    );
    assert_eq!(
        path_of(resolve_socket_dir(None, None, None, false, fallback)),
        PathBuf::from("/tmp/lightwatch")
    );
}

#[test]
fn ingest_the_socket_directory_prefers_the_explicit_override_then_the_platform_default() {
    let explicit = Some(PathBuf::from("/run/chosen"));
    let tmpdir = Some(PathBuf::from("/var/tmp-per-user"));
    let xdg = Some(PathBuf::from("/run/user/501"));
    let fallback = PathBuf::from("/tmp");

    assert_eq!(
        path_of(resolve_socket_dir(
            explicit.clone(),
            tmpdir.clone(),
            xdg.clone(),
            true,
            fallback.clone()
        )),
        PathBuf::from("/run/chosen")
    );
    assert_eq!(
        path_of(resolve_socket_dir(None, tmpdir.clone(), xdg.clone(), true, fallback.clone())),
        PathBuf::from("/var/tmp-per-user/lightwatch")
    );
    assert_eq!(
        path_of(resolve_socket_dir(None, tmpdir, xdg.clone(), false, fallback.clone())),
        PathBuf::from("/run/user/501/lightwatch")
    );
    assert_eq!(
        path_of(resolve_socket_dir(None, None, None, false, fallback)),
        PathBuf::from("/tmp/lightwatch")
    );
}

fn socket_dir(
    sock_dir: Option<&str>,
    tmpdir: Option<&str>,
    xdg: Option<&str>,
    is_macos: bool,
) -> Option<PathBuf> {
    probe_socket_dir(
        sock_dir.map(PathBuf::from),
        tmpdir.map(PathBuf::from),
        xdg.map(PathBuf::from),
        is_macos,
    )
    .map(path_of)
}

#[test]
fn an_explicit_socket_dir_wins_over_every_fallback() {
    assert_eq!(
        socket_dir(Some("/run/lw"), Some("/tmp"), Some("/run/user/1"), true),
        Some(PathBuf::from("/run/lw"))
    );
}

#[test]
fn macos_falls_back_to_tmpdir() {
    assert_eq!(
        socket_dir(None, Some("/var/folders/x/T/"), Some("/run/user/1"), true),
        Some(PathBuf::from("/var/folders/x/T/lightwatch"))
    );
}

#[test]
fn elsewhere_falls_back_to_the_xdg_runtime_dir_not_tmpdir() {
    assert_eq!(
        socket_dir(None, Some("/tmp"), Some("/run/user/1000"), false),
        Some(PathBuf::from("/run/user/1000/lightwatch"))
    );
}

#[test]
fn nothing_configured_means_nowhere_to_connect() {
    assert_eq!(socket_dir(None, None, None, false), None);
    assert!(candidate_sockets(false, None, &vec![]).is_empty());
}

#[test]
fn an_explicit_socket_path_is_the_only_candidate() {
    assert_eq!(
        candidate_sockets(true, Some("/run/other.sock"), &vec!["zzz.sock".to_string()]),
        vec![Candidate::Path("/run/other.sock".to_string())]
    );
}

#[test]
fn the_conventional_socket_is_tried_first() {
    let entries = vec!["zzz.sock".to_string(), "notes.txt".to_string(), "aaa.sock".to_string()];
    let found = candidate_sockets(true, None, &entries);
    assert_eq!(found[0], Candidate::Named(SOCKET_FILE.to_string()));
    assert!(
        found.contains(&Candidate::Named("zzz.sock".to_string())),
        "other sockets stay reachable"
    );
    assert_eq!(
        found,
        vec![
            Candidate::Named(SOCKET_FILE.to_string()),
            Candidate::Named("aaa.sock".to_string()),
            Candidate::Named("zzz.sock".to_string()),
        ]
    );
}

#[test]
fn a_running_daemon_keeps_its_socket_and_a_dead_one_does_not() {
    assert_eq!(claim(false, false), Claim::Stands);
    assert_eq!(claim(false, true), Claim::Stands);
    assert_eq!(claim(true, true), Claim::Refused);
    assert_eq!(claim(true, false), Claim::Reclaimed);
}

fn hash_of<T: Hash>(value: T) -> u64 {
    let mut hasher = IntHasher::default();
    value.hash(&mut hasher);
    Hasher::finish(&hasher)
}

#[test]
fn a_pair_depends_on_the_order_of_its_halves() {
    assert_ne!(hash_of((1u32, 2u32)), hash_of((2u32, 1u32)));
}

#[test]
fn sequential_ids_do_not_land_in_one_bucket() {
    // The ids the probe hands out are 1, 2, 3, .... A hash that leaves
    // them adjacent in the low bits turns every map into a linear scan.
    let low_bits: HashSet<u64> = (1u32..=64).map(|id| hash_of(id) & 63).collect();
    assert!(
        low_bits.len() > 40,
        "64 consecutive ids spread over only {} of 64 buckets",
        low_bits.len()
    );
}

#[test]
fn the_map_still_behaves_like_a_map() {
    let mut map: HashMap<(u32, u32), u64, BuildHasherDefault<IntHasher>> = HashMap::default();
    for from in 0..100u32 {
        for to in 0..10u32 {
            map.insert((from, to), (from * 10 + to) as u64);
        }
    }
    assert_eq!(map.len(), 1000);
    assert_eq!(map.get(&(37, 4)), Some(&374));
    assert_eq!(map.get(&(4, 37)), None);
}

#[test]
fn an_id_is_scattered_by_a_constant_and_folded() {
    // From an empty hash, the first value is multiplied alone.
    let product = 1u64.wrapping_mul(SCATTER);
    assert_eq!(hash_of(1u32), product ^ (product >> 32));
    assert_ne!(hash_of(1u32), hash_of(2u32));
    let ids: HashSet<u64> = (0u32..10_000).map(hash_of).collect();
    assert_eq!(ids.len(), 10_000, "no two ids hash alike");
}
