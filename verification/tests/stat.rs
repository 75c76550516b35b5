use belay::stat::lsh::lsh_cluster;
use belay::stat::dedup::{minhash, shingle};
use belay::stat::fingerprint::{fastcdc, fingerprint, match_level, BaselineEntry};
use belay::stat::minhash as lin;
use belay::taint::lattice::{Lattice, SetLattice};
use fixedbitset::FixedBitSet;

#[test]
fn minhash_estimates_jaccard() {
    let s1 = shingle("a b c d e f g h", 2);
    let s2 = shingle("a b c d e f g h i j", 2);
    let sig1 = minhash(&s1, 256);
    let sig2 = minhash(&s2, 256);
    let agree = sig1.iter().zip(&sig2).filter(|(x, y)| x == y).count() as f64;
    let est = agree / sig1.len() as f64;
    assert!(est > 0.4 && est < 0.85, "minhash estimate {est} far from truth");
}

#[test]
fn shingle_windows_and_short_inputs() {
    // Three tokens, windows of two: two shingles.
    assert_eq!(shingle("x  y\tz", 2).len(), 2);
    // Fewer tokens than the window: one hash per token.
    assert_eq!(shingle("x y", 5).len(), 2);
    assert_eq!(shingle("x y", 5)[0], shingle("x", 1)[0]);
    // Window of zero: one empty shingle per position, all zero.
    assert_eq!(shingle("x y", 0), vec![0, 0, 0]);
    assert!(shingle("   ", 1).is_empty());
}

#[test]
fn minhash_of_nothing_is_all_max() {
    assert_eq!(minhash(&[], 3), vec![u64::MAX; 3]);
    assert_eq!(lin::minhash(&[], 2), vec![u64::MAX; 2]);
    let a = lin::minhash(&[1, 2, 3], 8);
    assert_eq!(a, lin::minhash(&[1, 2, 3], 8));
    assert_eq!(a.len(), 8);
}

#[test]
fn shingle_hash_never_max() {
    assert_ne!(lin::shingle_hash("quick"), u64::MAX);
    assert_eq!(lin::shingle_hash("quick"), lin::shingle_hash("quick"));
    assert_ne!(lin::shingle_hash("quick"), lin::shingle_hash("brown"));
}

#[test]
fn cdc_resynchronizes_after_a_prefix() {
    let data: Vec<u8> = (0..2000).map(|i| ((i * 31) % 251) as u8).collect();
    let prefix: Vec<u8> = (0..300).map(|i| ((i * 17) % 251) as u8).collect();
    let mut combined = prefix.clone();
    combined.extend_from_slice(&data);
    let chunks_data = fastcdc(&data);
    let chunks_combined = fastcdc(&combined);
    let last_data = chunks_data.last().unwrap();
    let mut found = false;
    for c in &chunks_combined {
        let d = &data[last_data.0..last_data.0 + last_data.1];
        if c.0 + c.1 <= combined.len() && c.1 == last_data.1 {
            let cc = &combined[c.0..c.0 + c.1];
            if cc == d {
                found = true;
                break;
            }
        }
    }
    assert!(found, "FastCDC did not resynchronize to data's last chunk");
}

#[test]
fn cdc_tiles_the_input() {
    let data: Vec<u8> = (0..10_000u32).map(|i| (i.wrapping_mul(2654435761) >> 24) as u8).collect();
    let chunks = fastcdc(&data);
    let mut pos = 0;
    for &(off, len) in &chunks {
        assert_eq!(off, pos);
        assert!(len > 0 && len <= 4096);
        pos += len;
    }
    assert_eq!(pos, data.len());
    assert!(fastcdc(&[]).is_empty());
    assert_eq!(fastcdc(&[7u8; 10]), vec![(0, 10)]);
}

#[test]
fn fingerprint_is_deterministic_and_equal_for_identical() {
    let bytes = b"fn handle(req: u64) -> u64 { let x = req; x.unwrap() }";
    let a = fingerprint("panic-on-input", "v3", bytes);
    let b = fingerprint("panic-on-input", "v3", bytes);
    assert_eq!(a, b);
    let c = fingerprint("authz-missing", "v3", bytes);
    assert_ne!(a, c);
}

#[test]
fn match_level_reports_strongest_first() {
    let baseline = vec![BaselineEntry {
        class: "panic-on-input".into(),
        path: "src/a.rs".into(),
        span: (10, 20),
        symbol: "handle".into(),
        fp: [0; 16],
    }];
    let m = match_level(&baseline, "panic-on-input", "src/a.rs", (10, 20), "handle");
    assert_eq!(m, Some((0, 1)));
    let m = match_level(&baseline, "panic-on-input", "src/moved/a.rs", (10, 20), "handle");
    assert_eq!(m, Some((0, 2)));
    let m = match_level(&baseline, "panic-on-input", "src/a.rs", (99, 111), "handle");
    assert_eq!(m, Some((0, 3)));
    let m = match_level(&baseline, "authz-missing", "src/a.rs", (10, 20), "handle");
    assert_eq!(m, None);
}

#[test]
fn match_level_prefers_exact_over_earlier_weaker() {
    let e = |path: &str, span: (u32, u32)| BaselineEntry {
        class: "c".into(),
        path: path.into(),
        span,
        symbol: "s".into(),
        fp: [0; 16],
    };
    let baseline = vec![e("other.rs", (1, 2)), e("a.rs", (1, 2))];
    assert_eq!(match_level(&baseline, "c", "a.rs", (1, 2), "s"), Some((1, 1)));
    assert_eq!(match_level(&baseline, "c", "b.rs", (1, 2), "s"), Some((0, 2)));
}

#[test]
fn near_duplicates_cluster() {
    let a = "fn handle(req) { let x = req; x.unwrap() }";
    let b = "fn handle(req) { let x = req; x.unwrap() }"; // identical
    let c = "fn totally_different() { 42 }";
    let sigs: Vec<Vec<u64>> = [a, b, c].iter().map(|t| minhash(&shingle(t, 3), 128)).collect();
    let groups = lsh_cluster(&sigs, 20, 6);
    let mut found_pair = false;
    for g in &groups {
        if g.contains(&0) && g.contains(&1) {
            found_pair = true;
        }
    }
    assert!(found_pair, "identical spans must cluster: {groups:?}");
    for g in &groups {
        if g.contains(&0) {
            assert!(!g.contains(&2), "distinct span clustered with a: {g:?}");
        }
    }
}

fn sorted_groups(mut groups: Vec<Vec<usize>>) -> Vec<Vec<usize>> {
    groups.sort();
    groups
}

#[test]
fn lsh_cluster_joins_through_chains_of_bands() {
    // 0 and 1 agree on band 0; 1 and 2 agree on band 1; 3 agrees with nobody.
    let sigs = vec![vec![1, 1, 5, 5], vec![1, 1, 7, 7], vec![9, 9, 7, 7], vec![2, 3, 4, 6]];
    let groups = sorted_groups(lsh_cluster(&sigs, 2, 2));
    assert_eq!(groups, vec![vec![0, 1, 2], vec![3]]);
}

#[test]
fn lsh_cluster_without_bands_keeps_everyone_apart() {
    let sigs = vec![vec![1, 2], vec![1, 2], vec![3, 4]];
    let groups = sorted_groups(lsh_cluster(&sigs, 0, 2));
    assert_eq!(groups, vec![vec![0], vec![1], vec![2]]);
    assert!(lsh_cluster(&[], 4, 4).is_empty());
}

#[test]
fn lsh_cluster_reads_missing_rows_as_zero() {
    // Band 1 of the short signature reads rows 2..4 as zeros, matching [.., 0, 0].
    let sigs = vec![vec![1, 2], vec![8, 9, 0, 0]];
    let groups = sorted_groups(lsh_cluster(&sigs, 2, 2));
    assert_eq!(groups, vec![vec![0, 1]]);
}

fn lin_sig(s: &str, k: usize) -> Vec<u64> {
    let sh: Vec<u64> = s.split_whitespace().map(lin::shingle_hash).collect();
    lin::minhash(&sh, k)
}

fn estimate(a: &[u64], b: &[u64]) -> f64 {
    if a.is_empty() {
        return 0.0;
    }
    a.iter().zip(b).filter(|(x, y)| x == y).count() as f64 / a.len() as f64
}

#[test]
fn candidate_pairs_then_labels_group_duplicates() {
    let sigs = vec![
        lin_sig("a b c d e f g h", 128),
        lin_sig("a b c d e f g h", 128),
        lin_sig("x y z w q r s t", 128),
        lin_sig("x y z w q r s t", 128),
    ];
    let pairs = lin::lsh_candidates(&sigs, 4, 32);
    let accepted: Vec<(usize, usize)> = pairs
        .into_iter()
        .filter(|&(i, j)| estimate(&sigs[i], &sigs[j]) >= 0.8)
        .collect();
    let labels = lin::component_labels(sigs.len(), &accepted);
    assert_eq!(labels[0], labels[1], "duplicates 0,1 not grouped");
    assert_eq!(labels[2], labels[3], "duplicates 2,3 not grouped");
    assert_ne!(labels[0], labels[2]);
    assert_eq!(labels, vec![0, 0, 1, 1]);
}

#[test]
fn lsh_candidates_lists_each_colliding_pair_once() {
    // Identical signatures meet in every band; the pair still comes once.
    let s = vec![7u64, 8, 9, 10, 11, 12];
    let sigs = vec![s.clone(), s.clone(), vec![1, 2, 3, 4, 5, 6]];
    let pairs = lin::lsh_candidates(&sigs, 2, 3);
    assert_eq!(pairs, vec![(0, 1)]);
}

#[test]
fn lsh_candidates_meet_in_a_single_band() {
    // With bands of 2 rows, b and c agree on band 0, a and b on band 1.
    let a = vec![1u64, 2, 5, 6, 9, 10];
    let b = vec![3u64, 4, 5, 6, 11, 12];
    let c = vec![3u64, 4, 7, 8, 13, 14];
    let mut pairs = lin::lsh_candidates(&[a, b, c], 2, 3);
    pairs.sort();
    assert_eq!(pairs, vec![(0, 1), (1, 2)]);
}

#[test]
fn lsh_candidates_skip_short_signatures() {
    // Too few rows for 2 bands of 2: left out, even when equal.
    let sigs = vec![vec![1u64, 2, 3], vec![1u64, 2, 3], vec![1u64, 2, 3, 4], vec![1u64, 2, 3, 4]];
    assert_eq!(lin::lsh_candidates(&sigs, 2, 2), vec![(2, 3)]);
    assert!(lin::lsh_candidates(&sigs, 2, 0).is_empty());
}

#[test]
fn component_labels_number_components_by_first_appearance() {
    assert_eq!(lin::component_labels(5, &[(3, 4), (0, 2)]), vec![0, 1, 0, 2, 2]);
    assert_eq!(lin::component_labels(4, &[(2, 3), (1, 2), (0, 0)]), vec![0, 1, 1, 1]);
    assert_eq!(lin::component_labels(3, &[]), vec![0, 1, 2]);
    assert!(lin::component_labels(0, &[]).is_empty());
}

#[test]
fn minhash_signature_depends_on_the_shingle_set_only() {
    assert_eq!(lin::minhash(&[1, 2], 1), lin::minhash(&[2, 1], 1));
    assert_eq!(lin::minhash(&[5, 9, 13, 9], 16), lin::minhash(&[13, 5, 9], 16));
}

#[test]
fn set_lattice_ignores_storage_bits_past_its_length() {
    let dirty = FixedBitSet::with_capacity_and_blocks(4, vec![0b1_0000]);
    let a = SetLattice::from_bits(dirty);
    assert!(a.less_equal(&SetLattice::bottom(4)));
    let mut b = SetLattice::bottom(8);
    b.insert(1);
    let j = b.join(&a);
    assert!(!j.contains(4));
    assert!(j.contains(1));
}

#[test]
fn dedup_minhash_depends_on_the_shingle_set_only() {
    assert_eq!(minhash(&[7, 3], 8), minhash(&[3, 7, 3], 8));
    let a = minhash(&[1, 2], 4);
    let b = minhash(&[5], 4);
    let ab = minhash(&[1, 2, 5], 4);
    for i in 0..4 {
        assert_eq!(ab[i], a[i].min(b[i]));
    }
}
