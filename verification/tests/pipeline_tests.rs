use tarqeem_ir::opt::{OptLevel, OptStats};

#[test]
fn test_opt_level_parsing() {
    assert_eq!("0".parse::<OptLevel>().unwrap(), OptLevel::O0);
    assert_eq!("1".parse::<OptLevel>().unwrap(), OptLevel::O1);
    assert_eq!("-O2".parse::<OptLevel>().unwrap(), OptLevel::O2);
    assert_eq!("O3".parse::<OptLevel>().unwrap(), OptLevel::O3);
}

#[test]
fn test_opt_stats_merge() {
    let mut stats1 = OptStats {
        constants_folded: 5,
        dead_instructions_removed: 3,
        ..Default::default()
    };

    let stats2 = OptStats {
        constants_folded: 2,
        cse_hits: 4,
        ..Default::default()
    };

    stats1.merge(&stats2);
    assert_eq!(stats1.constants_folded, 7);
    assert_eq!(stats1.dead_instructions_removed, 3);
    assert_eq!(stats1.cse_hits, 4);
}
