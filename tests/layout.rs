use jxl::section::{total_bytes_in_toc, Section, SectionLayout};
use jxl::transpose::transpose;

#[test]
fn single_entry_toc() {
    let layout = SectionLayout::new(1, 1, 1);
    assert_eq!(layout.num_toc_entries, 1);
    assert_eq!(layout.get_section_idx(Section::LfGlobal), 0);
    assert_eq!(layout.get_section_idx(Section::HfGlobal), 0);
    assert_eq!(layout.get_section_idx(Section::Hf { group: 0, pass: 0 }), 0);
    assert_eq!(layout.get_section_idx(Section::Lf { group: 5 }), 0);
    assert_eq!(layout.get_section_idx(Section::Hf { group: 7, pass: 3 }), 0);
}

#[test]
fn section_indices() {
    let layout = SectionLayout::new(4, 2, 2);
    assert_eq!(layout.num_toc_entries, 12);
    assert_eq!(layout.get_section_idx(Section::LfGlobal), 0);
    assert_eq!(layout.get_section_idx(Section::Lf { group: 1 }), 2);
    assert_eq!(layout.get_section_idx(Section::HfGlobal), 3);
    assert_eq!(layout.get_section_idx(Section::Hf { group: 0, pass: 0 }), 4);
    assert_eq!(layout.get_section_idx(Section::Hf { group: 3, pass: 1 }), 11);
}

#[test]
fn section_indices_cover_the_toc() {
    let layout = SectionLayout::new(3, 1, 2);
    let mut seen = vec![false; layout.num_toc_entries];
    let mut sections = vec![Section::LfGlobal, Section::Lf { group: 0 }, Section::HfGlobal];
    for pass in 0..2 {
        for group in 0..3 {
            sections.push(Section::Hf { group, pass });
        }
    }
    for s in sections {
        let idx = layout.get_section_idx(s);
        assert!(!seen[idx]);
        seen[idx] = true;
    }
    assert!(seen.iter().all(|x| *x));
}

#[test]
fn toc_total() {
    let entries = vec![3u32, 5, 2];
    assert_eq!(total_bytes_in_toc(&entries), 10);
    assert_eq!(total_bytes_in_toc(&vec![u32::MAX, u32::MAX]), 2 * u32::MAX as u64);
    assert_eq!(total_bytes_in_toc(&vec![]), 0);
}

#[test]
fn transpose_small() {
    let x = [1, 2, 3, 4, 5, 6];
    let t = transpose(&x, 2, 3);
    assert_eq!(t, vec![1, 4, 2, 5, 3, 6]);
    assert_eq!(transpose(&t, 3, 2), x.to_vec());
}

#[test]
fn transpose_twice_is_identity() {
    let x: Vec<f32> = (0..8 * 32).map(|i| i as f32 * 0.37 - 5.0).collect();
    let t = transpose(&x, 8, 32);
    assert_eq!(t[1], x[32]);
    let back = transpose(&t, 32, 8);
    assert_eq!(back, x);
}
