//! The gallery: selection, pixels, and the files that are written.

use fidget_core::context::Tree;
use fidget_core::vm::VmShape;
use fidget_kernels::gallery::{
    draw_decisions, draw_surface, image_file, is_selected, ppm, spills, summary, tree_spills,
    unsupported_entry, Mode, RenderReport, Sample, Surface,
};

#[test]
fn models_are_selected_by_name() {
    assert!(is_selected(None, "bear"));
    assert!(is_selected(Some("bear"), "bear"));
    assert!(is_selected(Some("hi,bear,prospero"), "hi"));
    assert!(is_selected(Some("hi,bear,prospero"), "bear"));
    assert!(is_selected(Some("hi,bear,prospero"), "prospero"));
    assert!(!is_selected(Some("hi,bear,prospero"), "colonnade"));
    assert!(!is_selected(Some("hi,bears"), "bear"));
    assert!(!is_selected(Some("hi,bea"), "bear"));
    assert!(!is_selected(Some("hi, bear"), "bear"));
    assert!(!is_selected(Some(""), "bear"));
    assert!(is_selected(Some(""), ""));
    assert!(is_selected(Some("hi,"), ""));
    // As with `split`
    for list in ["a,b", ",a", "a,,b", "ab,a", "ä,b", "a"] {
        for name in ["", "a", "b", "ab", "a,b", "ä"] {
            assert_eq!(
                is_selected(Some(list), name),
                list.split(',').any(|m| m == name)
            );
        }
    }
}

#[test]
fn spilling_tapes_are_not_interpreted() {
    assert!(!Mode::Interpreted.supports(true));
    assert!(Mode::Interpreted.supports(false));
    assert!(Mode::Compiled.supports(true));
    assert!(Mode::Leaves.supports(true));
    assert_eq!(Mode::Interpreted.name(), "interpreted");
    assert_eq!(Mode::Compiled.name(), "compiled");
    assert_eq!(Mode::Leaves.name(), "leaves");
}

#[test]
fn decisions_are_drawn_and_counted() {
    let image = draw_decisions(&[
        Sample::Fill(true),
        Sample::Negative,
        Sample::Fill(false),
        Sample::NotANumber,
        Sample::NonNegative,
    ]);
    assert_eq!(
        image.rgb,
        vec![
            [40, 60, 110],
            [70, 110, 190],
            [236, 236, 236],
            [255, 0, 255],
            [255, 214, 150],
        ]
    );
    assert_eq!((image.fills, image.points), (2, 3));
    let image = draw_decisions(&[]);
    assert_eq!((image.rgb.len(), image.fills, image.points), (0, 0, 0));
}

#[test]
fn surfaces_are_drawn_and_counted() {
    let pixel = |depth, differs| Surface {
        depth,
        differs,
        shade: [1, 2, 3],
    };
    let image = draw_surface(&[
        pixel(0, false),
        pixel(0, true),
        pixel(7, true),
        pixel(7, false),
    ]);
    assert_eq!(
        image.rgb,
        vec![[30, 30, 36], [30, 30, 36], [255, 30, 30], [1, 2, 3]]
    );
    assert_eq!(image.differ, 1);
}

#[test]
fn images_are_ppm_files() {
    let mut want = b"P6\n2 1\n255\n".to_vec();
    want.extend([1, 2, 3, 254, 255, 0]);
    assert_eq!(ppm(2, 1, &[[1, 2, 3], [254, 255, 0]]), want);
    assert_eq!(ppm(0, 512, &[]), b"P6\n0 512\n255\n".to_vec());
    assert_eq!(image_file("bear", Mode::Leaves, false), "bear_leaves_2d.ppm");
    assert_eq!(
        image_file("hi", Mode::Interpreted, true),
        "hi_interpreted_3d.ppm"
    );
}

#[test]
fn summaries_are_lists() {
    let a = unsupported_entry("prospero", Mode::Interpreted);
    assert_eq!(
        a,
        "{\"model\":\"prospero\",\"mode\":\"interpreted\",\
         \"unsupported\":true}"
    );
    let b = RenderReport {
        model: "hi",
        mode: Mode::Compiled,
        fills: 10,
        points: 2,
        differ: 0,
        first_2d: "0.5",
        first_3d: "1.25",
    }
    .entry();
    assert_eq!(
        b,
        "{\"model\":\"hi\",\"mode\":\"compiled\",\"fills\":10,\"points\":2,\
         \"normals_differ\":0,\"first_2d\":0.5,\"first_3d\":1.25}"
    );
    assert_eq!(summary(&[]), "[]");
    assert_eq!(summary(&[a.clone()]), format!("[{a}]"));
    assert_eq!(summary(&[a.clone(), b.clone()]), format!("[{a},\n{b}]"));
}

#[test]
fn large_tapes_spill() {
    assert!(!spills(&VmShape::from(Tree::x().sin() + Tree::y())).unwrap());
    let (x, y, _) = Tree::axes();
    let terms: Vec<Tree> = (0..400)
        .map(|i| (x.clone() * (i as f32 * 0.01)).sin() + y.clone())
        .collect();
    let mut t = terms[0].clone();
    for v in terms.iter().skip(1) {
        t = t.max(v.clone());
    }
    for v in terms.iter().rev() {
        t += v.clone();
    }
    assert!(tree_spills(&t).unwrap());
    assert!(spills(&VmShape::from(t)).unwrap());
    assert!(!tree_spills(&Tree::x()).unwrap());
}
