use atoms::anomaly::{anomaly_rule, correct_anomalies, Correction};
use atoms::render::subshell_label_from_az_value;
use atoms::shell::{ElectronShell, MAX_ELECTRONS};
use atoms::subshell::ElectronSubshell;

fn subshells(n: usize) -> Vec<ElectronSubshell> {
    ElectronShell::from_electrons(n).electron_subshell()
}

fn text(n: usize) -> String {
    ElectronShell::from_electrons(n).electron_subshell_to_string()
}

fn sub(level: u8, shell: u8, electrons: u8) -> ElectronSubshell {
    ElectronSubshell::from_lse(level, shell, electrons)
}

#[test]
fn single_electron() {
    assert_eq!(subshells(1), vec![sub(1, 0, 1)]);
}

#[test]
fn filled_first_shell() {
    assert_eq!(subshells(2), vec![sub(1, 0, 2)]);
}

#[test]
fn neon() {
    assert_eq!(subshells(10), vec![sub(1, 0, 2), sub(2, 0, 2), sub(2, 1, 6)]);
    assert_eq!(text(10), "1s2 2s2 2p6 ");
}

#[test]
fn no_electrons_leaves_an_empty_first_subshell() {
    assert_eq!(subshells(0), vec![sub(1, 0, 0)]);
    assert_eq!(text(0), "1s0 ");
}

#[test]
fn chromium_moves_one_electron_into_3d() {
    let c = subshells(24);
    assert_eq!(c.len(), 7);
    assert_eq!(c[5], sub(3, 2, 5));
    assert_eq!(c[6], sub(4, 0, 1));
    assert_eq!(text(24), "1s2 2s2 2p6 3s2 3p6 3d5 4s1 ");
}

#[test]
fn copper_fills_3d() {
    let c = subshells(29);
    assert_eq!(c[c.len() - 2], sub(3, 2, 10));
    assert_eq!(c[c.len() - 1], sub(4, 0, 1));
    assert_eq!(text(29), "1s2 2s2 2p6 3s2 3p6 3d10 4s1 ");
}

#[test]
fn palladium_has_no_5s() {
    let c = subshells(46);
    assert_eq!(c[c.len() - 1], sub(4, 2, 10));
    assert!(c.iter().all(|s| !(s.level == 5 && s.shell == 0)));
    assert_eq!(text(46), "1s2 2s2 2p6 3s2 3p6 3d10 4s2 4p6 4d10 ");
}

#[test]
fn iron_is_not_an_anomaly() {
    assert_eq!(text(26), "1s2 2s2 2p6 3s2 3p6 3d6 4s2 ");
}

#[test]
fn niobium_and_molybdenum() {
    assert_eq!(text(41), "1s2 2s2 2p6 3s2 3p6 3d10 4s2 4p6 4d4 5s1 ");
    assert_eq!(text(42), "1s2 2s2 2p6 3s2 3p6 3d10 4s2 4p6 4d5 5s1 ");
}

#[test]
fn platinum_shifts_into_5d() {
    assert_eq!(
        text(78),
        "1s2 2s2 2p6 3s2 3p6 3d10 4s2 4p6 4d10 4f14 5s2 5p6 5d9 6s1 "
    );
}

#[test]
fn lawrencium_takes_a_7p_electron() {
    assert_eq!(
        text(103),
        "1s2 2s2 2p6 3s2 3p6 3d10 4s2 4p6 4d10 4f14 5s2 5p6 5d10 5f14 6s2 6p6 7s2 7p1 "
    );
}

#[test]
fn oganesson_is_regular() {
    assert_eq!(
        text(118),
        "1s2 2s2 2p6 3s2 3p6 3d10 4s2 4p6 4d10 4f14 5s2 5p6 5d10 5f14 6s2 6p6 6d10 7s2 7p6 "
    );
}

#[test]
fn largest_count_ends_on_30s() {
    let t = text(MAX_ELECTRONS);
    assert!(t.ends_with("28s2 28p6 28d10 29s2 29p6 30s2 "));
    assert!(t.contains("26g18 "));
}

#[test]
fn electrons_add_up_for_every_count() {
    for n in 0..=MAX_ELECTRONS {
        let total: usize = subshells(n).iter().map(|s| s.electrons as usize).sum();
        assert_eq!(total, n, "electron count {}", n);
    }
}

#[test]
fn no_subshell_exceeds_capacity() {
    for n in 0..=MAX_ELECTRONS {
        for s in subshells(n) {
            assert!(s.electrons as usize <= 4 * (s.shell as usize + 1) - 2, "electron count {}", n);
            assert!(s.shell < s.level, "electron count {}", n);
        }
    }
}

#[test]
fn one_more_electron_extends_or_opens_a_subshell() {
    assert_eq!(text(18), "1s2 2s2 2p6 3s2 3p6 ");
    assert_eq!(text(19), "1s2 2s2 2p6 3s2 3p6 4s1 ");
    assert_eq!(text(20), "1s2 2s2 2p6 3s2 3p6 4s2 ");
    assert_eq!(text(21), "1s2 2s2 2p6 3s2 3p6 3d1 4s2 ");
    assert_eq!(text(3), "1s2 2s1 ");
    assert_eq!(text(5), "1s2 2s2 2p1 ");
}

#[test]
fn anomaly_table_has_one_rule_per_entry() {
    for level in 0..=u8::MAX {
        for electrons in 0..=u8::MAX {
            let expected = match (level, electrons) {
                (3, 4) | (3, 9) => Correction::ShiftOne,
                (4, 3) | (4, 4) | (4, 6) | (4, 7) | (4, 9) => Correction::ShiftOne,
                (4, 8) => Correction::AbsorbOuter,
                (5, 8) | (5, 9) => Correction::ShiftOne,
                (6, 1) => Correction::SwapToP,
                _ => Correction::Keep,
            };
            assert_eq!(anomaly_rule(level, electrons), expected);
        }
    }
}

#[test]
fn correction_needs_a_d_stop() {
    let mut v = vec![sub(3, 2, 4), sub(4, 0, 2)];
    correct_anomalies(&mut v, 2);
    assert_eq!(v, vec![sub(3, 2, 4), sub(4, 0, 2)]);
}

#[test]
fn correction_skips_a_short_configuration() {
    let mut v = vec![sub(1, 0, 1)];
    correct_anomalies(&mut v, 3);
    assert_eq!(v, vec![sub(1, 0, 1)]);
}

#[test]
fn correction_shifts_one_electron() {
    let mut v = vec![sub(3, 1, 6), sub(3, 2, 9), sub(4, 0, 2)];
    correct_anomalies(&mut v, 3);
    assert_eq!(v, vec![sub(3, 1, 6), sub(3, 2, 10), sub(4, 0, 1)]);
}

#[test]
fn correction_absorbs_the_outer_s() {
    let mut v = vec![sub(4, 1, 6), sub(4, 2, 8), sub(5, 0, 2)];
    correct_anomalies(&mut v, 3);
    assert_eq!(v, vec![sub(4, 1, 6), sub(4, 2, 10)]);
}

#[test]
fn correction_swaps_to_7p() {
    let mut v = vec![sub(6, 1, 6), sub(6, 2, 1), sub(7, 0, 2)];
    correct_anomalies(&mut v, 3);
    assert_eq!(v, vec![sub(6, 1, 6), sub(7, 0, 2), sub(7, 1, 1)]);
}

#[test]
fn correction_keeps_an_outer_s_without_electrons() {
    let mut v = vec![sub(3, 2, 4), sub(4, 0, 0)];
    correct_anomalies(&mut v, 3);
    assert_eq!(v, vec![sub(3, 2, 4), sub(4, 0, 0)]);
}

#[test]
fn correcting_twice_settles_for_chromium_and_copper() {
    for n in [24usize, 29, 42, 47, 79, 103] {
        let once = subshells(n);
        let mut twice = once.clone();
        correct_anomalies(&mut twice, 3);
        assert_eq!(twice, once, "electron count {}", n);
    }
}

#[test]
fn correcting_niobium_twice_moves_another_electron() {
    let mut v = subshells(41);
    correct_anomalies(&mut v, 3);
    assert_eq!(v[v.len() - 2], sub(4, 2, 5));
    assert_eq!(v[v.len() - 1], sub(5, 0, 0));
}

#[test]
fn labels() {
    assert_eq!(subshell_label_from_az_value(0), "s");
    assert_eq!(subshell_label_from_az_value(3), "f");
    assert_eq!(subshell_label_from_az_value(10), "m");
    assert_eq!(subshell_label_from_az_value(11), "n1");
    assert_eq!(subshell_label_from_az_value(23), "n13");
}

#[test]
fn subshell_text() {
    assert_eq!(sub(3, 2, 5).to_string(), "3d5 ");
    assert_eq!(sub(12, 11, 0).to_string(), "12n10 ");
    assert_eq!(sub(27, 4, 18).to_string(), "27g18 ");
}

#[test]
fn summaries_follow_the_ladder() {
    let cases: [(usize, u8, u8); 8] = [
        (0, 0, 1),
        (2, 0, 1),
        (3, 1, 1),
        (10, 2, 2),
        (24, 4, 3),
        (57, 6, 4),
        (118, 7, 4),
        (MAX_ELECTRONS, 30, 16),
    ];
    for (n, az, aphelion) in cases {
        let shell = ElectronShell::from_electrons(n);
        assert_eq!(shell.azimuthal_qn(), az, "electron count {}", n);
        assert_eq!(shell.aphelion_shell(), aphelion, "electron count {}", n);
    }
}
