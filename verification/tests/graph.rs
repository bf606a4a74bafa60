use turbomap_core::graph::{in_msaa_order, msaa_order, Executed, FrameGraph, FramePhase, PassDesc, PassMask, PassTiming, Res};

const BEFORE: PassDesc = PassDesc {
    name: "shadow-assemble",
    phase: FramePhase::BeforeFrame,
    reads: &[],
    writes: &[Res::HeightField, Res::ShadowUniforms],
};
const GROUND: PassDesc = PassDesc {
    name: "layer",
    phase: FramePhase::GroundMsaa,
    reads: &[Res::ShadowUniforms],
    writes: &[Res::ColorMsaa, Res::Depth],
};

#[test]
fn mask_disables_by_name_and_by_instance() {
    let mut m = PassMask::default();
    m.set_enabled("layer:hillshade", false);
    assert!(m.enabled("layer", Some("basemap")));
    assert!(!m.enabled("layer", Some("hillshade")));
    m.set_enabled("layer", false);
    assert!(!m.enabled("layer", Some("basemap")));
    m.set_enabled("layer", true);
    assert!(m.enabled("layer", Some("basemap")));
}

#[test]
fn run_now_times_and_masks() {
    let mut g = FrameGraph::new(PassMask::default());
    let ran = g.run_now(&BEFORE, || 42);
    assert_eq!(ran, Some(42));
    let report = g.finish();
    assert_eq!(report.passes.len(), 1);
    assert_eq!(report.passes[0].label, "shadow-assemble");
    assert!(!report.passes[0].skipped);

    let mut mask = PassMask::default();
    mask.set_enabled("shadow-assemble", false);
    let mut g = FrameGraph::new(mask);
    let ran = g.run_now(&BEFORE, || 42);
    assert_eq!(ran, None);
    let report = g.finish();
    assert!(report.passes[0].skipped);
}

#[test]
fn validate_rejects_read_before_write() {
    let mut mask = PassMask::default();
    mask.set_enabled("shadow-assemble", false);
    let mut g = FrameGraph::new(mask);
    assert!(g.run_now(&BEFORE, || ()).is_none());
    g.executed.push(Executed {
        reads: GROUND.reads,
        writes: GROUND.writes,
        label: "layer:basemap".into(),
        skipped: false,
    });
    assert!(g.validate().is_err());

    g.executed.last_mut().unwrap().reads = &[Res::HeightField];
    assert!(g.validate().is_ok());
}

#[test]
fn scheduler_orders_overlay_after_ground_stably() {
    const G: FramePhase = FramePhase::GroundMsaa;
    const O: FramePhase = FramePhase::OverlayMsaa;
    let phases = [O, G, O, G, G, O];
    assert_eq!(msaa_order(&phases), vec![1, 3, 4, 0, 2, 5]);
    let phases = [G, G, O, O];
    assert_eq!(msaa_order(&phases), vec![0, 1, 2, 3]);
}

#[test]
fn validate_accepts_writer_before_reader() {
    let mut g = FrameGraph::new(PassMask::default());
    assert!(g.run_now(&BEFORE, || ()).is_some());
    g.executed.push(Executed {
        reads: GROUND.reads,
        writes: GROUND.writes,
        label: "layer:basemap".into(),
        skipped: false,
    });
    assert!(g.validate().is_ok());
}

#[test]
fn validation_error_names_the_pass_and_the_resource() {
    let mut mask = PassMask::default();
    mask.set_enabled("shadow-assemble", false);
    let mut g = FrameGraph::new(mask);
    g.run_now(&BEFORE, || ());
    g.executed.push(Executed {
        reads: GROUND.reads,
        writes: GROUND.writes,
        label: "layer:basemap".into(),
        skipped: false,
    });
    assert_eq!(
        g.validate(),
        Err("pass 'layer:basemap' reads ShadowUniforms before any pass wrote it this frame".to_string())
    );
}

#[test]
fn disabled_passes_are_listed_in_byte_order_once() {
    let mut m = PassMask::default();
    assert!(m.is_empty());
    m.set_enabled("sky", false);
    m.set_enabled("layer:hillshade", false);
    m.set_enabled("layer", false);
    m.set_enabled("sky", false);
    assert_eq!(m.disabled_passes(), vec!["layer", "layer:hillshade", "sky"]);
    m.set_enabled("layer", true);
    assert_eq!(m.disabled_passes(), vec!["layer:hillshade", "sky"]);
    assert!(!m.is_empty());
    let copy = m.clone();
    assert_eq!(copy.disabled_passes(), vec!["layer:hillshade", "sky"]);
}

#[test]
fn run_timed_labels_instances_and_masks_them_by_label() {
    let mut mask = PassMask::default();
    mask.set_enabled("layer:hillshade", false);
    let mut g = FrameGraph::new(mask);
    assert_eq!(g.run_timed(&GROUND, Some("basemap"), || 7), Some(7));
    assert_eq!(g.run_timed(&GROUND, Some("hillshade"), || 7), None);
    g.mark_frame_resolved();
    assert_eq!(g.executed.len(), 3);
    assert_eq!(g.executed[2].label, "frame-pass-resolve");
    assert_eq!(g.executed[2].writes, &[Res::FrameTarget]);
    assert_eq!(FrameGraph::label(&GROUND, Some("basemap")), "layer:basemap");
    assert_eq!(FrameGraph::label(&GROUND, None), "layer");
    assert_eq!(g.timings[0].label, "layer:basemap");
    assert!(g.timings[1].skipped);
    assert_eq!(g.timings[1].phase, FramePhase::GroundMsaa);
}

#[test]
fn msaa_order_sorts_every_phase_stably() {
    let phases = [
        FramePhase::Composite,
        FramePhase::BeforeFrame,
        FramePhase::OverlayMsaa,
        FramePhase::GroundMsaa,
        FramePhase::BeforeFrame,
        FramePhase::Composite,
    ];
    assert_eq!(msaa_order(&phases), vec![1, 4, 3, 2, 0, 5]);
    assert_eq!(msaa_order(&[]), Vec::<usize>::new());
}

#[test]
fn persistent_resources_are_the_cross_frame_fields() {
    assert!(Res::HeightField.persistent());
    assert!(Res::AoField.persistent());
    assert!(!Res::ShadowUniforms.persistent());
    assert!(!Res::FrameTarget.persistent());
    assert_eq!(Res::ColorMsaa.name(), "ColorMsaa");
}

#[test]
fn contributions_are_reordered_into_the_schedule() {
    const G: FramePhase = FramePhase::GroundMsaa;
    const O: FramePhase = FramePhase::OverlayMsaa;
    let phases = [O, G, O, G, G, O];
    let nodes = vec!["text", "basemap", "icons", "hillshade", "custom", "markers"];
    assert_eq!(
        in_msaa_order(nodes, &phases),
        vec!["basemap", "hillshade", "custom", "text", "icons", "markers"]
    );
    assert_eq!(in_msaa_order(Vec::<u8>::new(), &[]), Vec::<u8>::new());
}

#[test]
fn pass_timing_clone_keeps_every_field() {
    let t = PassTiming {
        label: "layer:basemap".to_string(),
        phase: FramePhase::GroundMsaa,
        cpu: std::time::Duration::from_millis(3),
        skipped: false,
    };
    let c = t.clone();
    assert_eq!(c.label, t.label);
    assert_eq!(c.phase, t.phase);
    assert_eq!(c.cpu, t.cpu);
    assert_eq!(c.skipped, t.skipped);
}
