//! The plugin in a scene.

use grapple::grapple::{GrappleConstraint, SwingBias};
use grapple::names::NameMap;
use grapple::plugin::{GrappleCommand, GrapplePlugin};
use grapple::scalar::F32;
use grapple::scene::{Canvas, GameObject, Layout, ObjectStore, Target};

fn n(x: f32) -> F32 {
    F32::from_bits(x.to_bits())
}

fn f(x: F32) -> f32 {
    f32::from_bits(x.to_bits())
}

fn p(x: f32, y: f32) -> (F32, F32) {
    (n(x), n(y))
}

fn pair(v: (F32, F32)) -> (f32, f32) {
    (f(v.0), f(v.1))
}

fn s(text: &str) -> String {
    text.to_string()
}

fn target(names: &[&str]) -> Target {
    Target { names: names.iter().map(|name| name.to_string()).collect() }
}

/// A scene of bodies of extent 2 by 4 at the given corners, drawn where they are.
fn scene(list: &[(&str, f32, f32)]) -> Canvas {
    let mut objects = Vec::new();
    let mut offsets = Vec::new();
    let mut index = NameMap::new();
    for (name, x, y) in list {
        index.insert(&name.to_string(), objects.len());
        objects.push(GameObject { position: p(*x, *y), size: p(2.0, 4.0), momentum: p(0.0, 0.0) });
        offsets.push(p(*x, *y));
    }
    Canvas {
        store: ObjectStore { objects, name_to_index: index },
        layout: Layout { offsets },
        woken: Vec::new(),
    }
}

fn rope(length: f32) -> GrappleConstraint {
    GrappleConstraint::rigid_tether(p(0.0, 0.0), n(length)).with_damping(n(0.0))
}

fn attach(plugin: &mut GrapplePlugin, canvas: &mut Canvas, names: &[&str], g: GrappleConstraint) {
    let command = GrappleCommand::Attach { target: target(names), grapple: g };
    assert!(plugin.on_call(canvas, Some(&command)));
}

fn held<'a>(plugin: &'a GrapplePlugin, name: &str) -> Option<&'a GrappleConstraint> {
    plugin.grapple_constraints.get(&s(name))
}

fn place(canvas: &Canvas, index: usize) -> (f32, f32) {
    pair(canvas.store.objects[index].position)
}

#[test]
fn plugin_has_a_name() {
    assert_eq!(GrapplePlugin::new().name(), "grapple");
    assert_eq!(GrapplePlugin::default().grapple_constraints.len(), 0);
}

#[test]
fn other_payloads_are_not_taken() {
    let mut plugin = GrapplePlugin::new();
    let mut canvas = scene(&[("a", 1.0, 1.0)]);
    assert!(!plugin.on_call(&mut canvas, None));
    assert_eq!(plugin.grapple_constraints.len(), 0);
    assert!(canvas.woken.is_empty());
}

#[test]
fn attaching_wakes_and_anchors() {
    let mut plugin = GrapplePlugin::new();
    let mut canvas = scene(&[("a", 1.0, 1.0), ("b", 10.0, 20.0)]);
    let g = GrappleConstraint::to_object(s("b"), n(5.0));
    attach(&mut plugin, &mut canvas, &["a", "ghost"], g);
    assert_eq!(canvas.woken, vec![s("a"), s("ghost")]);
    assert_eq!(pair(held(&plugin, "a").unwrap().anchor), (11.0, 22.0));
    assert_eq!(pair(held(&plugin, "ghost").unwrap().anchor), (11.0, 22.0));
    assert_eq!(held(&plugin, "a").unwrap().anchor_object, Some(s("b")));
    assert!(held(&plugin, "b").is_none());
}

#[test]
fn attaching_to_an_unknown_body_keeps_the_anchor() {
    let mut plugin = GrapplePlugin::new();
    let mut canvas = scene(&[("a", 1.0, 1.0)]);
    let g = GrappleConstraint::to_object(s("nobody"), n(5.0));
    attach(&mut plugin, &mut canvas, &["a"], g);
    assert_eq!(pair(held(&plugin, "a").unwrap().anchor), (0.0, 0.0));
}

#[test]
fn the_later_grapple_counts() {
    let mut plugin = GrapplePlugin::new();
    let mut canvas = scene(&[("a", 1.0, 1.0)]);
    attach(&mut plugin, &mut canvas, &["a"], rope(5.0));
    attach(&mut plugin, &mut canvas, &["a"], rope(7.0));
    assert_eq!(plugin.grapple_constraints.len(), 1);
    assert_eq!(f(held(&plugin, "a").unwrap().length), 7.0);
}

#[test]
fn releasing_undoes_attaching() {
    let mut plugin = GrapplePlugin::new();
    let mut canvas = scene(&[("a", 1.0, 1.0), ("b", 2.0, 2.0)]);
    attach(&mut plugin, &mut canvas, &["a", "b"], rope(5.0));
    let command = GrappleCommand::Release { target: target(&["a", "nobody"]) };
    assert!(plugin.on_call(&mut canvas, Some(&command)));
    assert!(held(&plugin, "a").is_none());
    assert!(held(&plugin, "b").is_some());
    assert_eq!(canvas.woken.len(), 2);
    assert!(plugin.on_call(&mut canvas, Some(&GrappleCommand::Release { target: target(&["b"]) })));
    assert_eq!(plugin.grapple_constraints.len(), 0);
}

#[test]
fn settings_change_only_their_target() {
    let mut plugin = GrapplePlugin::new();
    let mut canvas = scene(&[("a", 1.0, 1.0), ("b", 2.0, 2.0)]);
    attach(&mut plugin, &mut canvas, &["a", "b"], rope(5.0));
    let t = || target(&["a", "nobody"]);
    let commands = vec![
        GrappleCommand::SetLength { target: t(), value: n(0.25) },
        GrappleCommand::SetStiffness { target: t(), value: n(0.5) },
        GrappleCommand::SetDamping { target: t(), value: n(4.0) },
        GrappleCommand::SetAnchorObject { target: t(), anchor_object: s("b") },
        GrappleCommand::SetSwingBias { target: t(), bias: SwingBias::Vertical },
    ];
    for command in &commands {
        assert!(plugin.on_call(&mut canvas, Some(command)));
    }
    let a = held(&plugin, "a").unwrap();
    assert_eq!(f(a.length), 1.0);
    assert_eq!(f(a.stiffness), 0.5);
    assert_eq!(f(a.damping), 1.0);
    assert_eq!(a.anchor_object, Some(s("b")));
    assert_eq!(pair(a.anchor), (0.0, 0.0));
    assert_eq!(a.swing_bias, SwingBias::Vertical);
    let b = held(&plugin, "b").unwrap();
    assert_eq!(f(b.length), 5.0);
    assert_eq!(f(b.stiffness), 1.0);
    assert!(b.anchor_object.is_none());
    assert!(held(&plugin, "nobody").is_none());
    assert_eq!(canvas.woken.len(), 2);
}

#[test]
fn settings_do_not_depend_on_their_order() {
    let length = GrappleCommand::SetLength { target: target(&["a"]), value: n(9.0) };
    let damping = GrappleCommand::SetDamping { target: target(&["a"]), value: n(0.5) };
    for commands in [vec![&length, &damping], vec![&damping, &length]] {
        let mut plugin = GrapplePlugin::new();
        let mut canvas = scene(&[("a", 1.0, 1.0)]);
        attach(&mut plugin, &mut canvas, &["a"], rope(5.0));
        for command in commands {
            plugin.on_call(&mut canvas, Some(command));
        }
        let a = held(&plugin, "a").unwrap();
        assert_eq!((f(a.length), f(a.damping)), (9.0, 0.5));
    }
}

#[test]
fn a_set_anchor_stays() {
    let mut plugin = GrapplePlugin::new();
    let mut canvas = scene(&[("a", 1.0, 1.0), ("b", 10.0, 20.0)]);
    attach(&mut plugin, &mut canvas, &["a"], GrappleConstraint::to_object(s("b"), n(50.0)));
    let command = GrappleCommand::SetAnchor { target: target(&["a"]), x: n(3.0), y: n(4.0) };
    assert!(plugin.on_call(&mut canvas, Some(&command)));
    plugin.on_post_solve(&mut canvas, n(0.016));
    assert_eq!(pair(held(&plugin, "a").unwrap().anchor), (3.0, 4.0));
    assert!(held(&plugin, "a").unwrap().anchor_object.is_none());
}

#[test]
fn an_anchor_follows_its_body() {
    let mut plugin = GrapplePlugin::new();
    let mut canvas = scene(&[("a", 1.0, 1.0), ("b", 10.0, 20.0)]);
    attach(&mut plugin, &mut canvas, &["a"], GrappleConstraint::to_object(s("b"), n(500.0)));
    canvas.store.objects[1].position = p(30.0, 40.0);
    plugin.on_post_solve(&mut canvas, n(0.016));
    assert_eq!(pair(held(&plugin, "a").unwrap().anchor), (31.0, 42.0));
}

#[test]
fn a_frame_moves_the_middle_to_the_end_of_the_rope() {
    let mut plugin = GrapplePlugin::new();
    let mut canvas = scene(&[("a", 19.0, -2.0), ("b", 100.0, 100.0)]);
    canvas.store.objects[0].momentum = p(6.0, 3.0);
    attach(&mut plugin, &mut canvas, &["a"], rope(10.0));
    plugin.on_post_solve(&mut canvas, n(0.016));
    assert_eq!(place(&canvas, 0), (9.0, -2.0));
    assert_eq!(pair(canvas.layout.offsets[0]), (9.0, -2.0));
    assert_eq!(pair(canvas.store.objects[0].momentum), (0.0, 3.0));
    assert_eq!(pair(canvas.store.objects[0].size), (2.0, 4.0));
    assert_eq!(place(&canvas, 1), (100.0, 100.0));
    assert_eq!(pair(canvas.layout.offsets[1]), (100.0, 100.0));
}

#[test]
fn a_frame_without_a_taut_rope_changes_nothing() {
    let mut plugin = GrapplePlugin::new();
    let mut canvas = scene(&[("a", 3.0, 3.0)]);
    plugin.on_post_solve(&mut canvas, n(0.016));
    attach(&mut plugin, &mut canvas, &["a", "nobody"], rope(100.0));
    plugin.on_post_solve(&mut canvas, n(0.016));
    assert_eq!(place(&canvas, 0), (3.0, 3.0));
    assert_eq!(pair(canvas.layout.offsets[0]), (3.0, 3.0));
}

#[test]
fn names_that_lead_nowhere_are_passed_over() {
    let mut plugin = GrapplePlugin::new();
    let mut canvas = scene(&[("a", 30.0, 30.0)]);
    canvas.store.name_to_index.insert(&s("lost"), 7);
    attach(&mut plugin, &mut canvas, &["lost", "nobody"], rope(1.0));
    plugin.on_post_solve(&mut canvas, n(0.016));
    assert_eq!(place(&canvas, 0), (30.0, 30.0));
    assert_eq!(f(held(&plugin, "lost").unwrap().length), 1.0);
}

#[test]
fn ropes_between_bodies_see_the_same_scene_in_any_order() {
    let mut results = Vec::new();
    for names in [["a", "b"], ["b", "a"]] {
        let mut plugin = GrapplePlugin::new();
        let mut canvas = scene(&[("a", 0.0, 0.0), ("b", 40.0, 0.0)]);
        for name in names {
            let other = if name == "a" { "b" } else { "a" };
            let g = GrappleConstraint::to_object(s(other), n(10.0)).with_stiffness(n(0.5));
            attach(&mut plugin, &mut canvas, &[name], g);
        }
        plugin.on_post_solve(&mut canvas, n(0.016));
        results.push((place(&canvas, 0), place(&canvas, 1)));
    }
    assert_eq!(results[0], ((15.0, 0.0), (25.0, 0.0)));
    assert_eq!(results[0], results[1]);
}

#[test]
fn a_frame_takes_up_slack() {
    let mut plugin = GrapplePlugin::new();
    let mut canvas = scene(&[("a", 5.0, -2.0)]);
    attach(&mut plugin, &mut canvas, &["a"], rope(10.0).with_auto_shorten());
    plugin.on_post_solve(&mut canvas, n(0.016));
    assert_eq!(f(held(&plugin, "a").unwrap().length), 6.0);
    assert_eq!(place(&canvas, 0), (5.0, -2.0));
}

#[test]
fn a_name_table_keeps_its_order() {
    let mut table: NameMap<u8> = NameMap::new();
    table.insert(&s("x"), 1);
    table.insert(&s("y"), 2);
    table.insert(&s("z"), 3);
    table.insert(&s("y"), 4);
    table.remove(&s("x"));
    table.remove(&s("w"));
    assert_eq!(table.len(), 2);
    assert_eq!((table.name_at(0), table.name_at(1)), (&s("y"), &s("z")));
    assert_eq!(table.get(&s("y")), Some(&4));
    *table.get_mut(&s("z")).unwrap() = 9;
    assert_eq!(table.get(&s("z")), Some(&9));
    assert!(table.get(&s("x")).is_none());
    assert!(table.get_mut(&s("x")).is_none());
}

#[test]
fn settings_stay_in_range() {
    let mut plugin = GrapplePlugin::new();
    let mut canvas = scene(&[("a", 1.0, 1.0)]);
    attach(&mut plugin, &mut canvas, &["a"], rope(5.0));
    for value in [-3.0, 0.0, 0.5, 1.0, 7.0, f32::INFINITY, f32::NEG_INFINITY] {
        let t = || target(&["a"]);
        plugin.on_call(&mut canvas, Some(&GrappleCommand::SetLength { target: t(), value: n(value) }));
        plugin
            .on_call(&mut canvas, Some(&GrappleCommand::SetStiffness { target: t(), value: n(value) }));
        plugin
            .on_call(&mut canvas, Some(&GrappleCommand::SetDamping { target: t(), value: n(value) }));
        let g = held(&plugin, "a").unwrap();
        assert_eq!(f(g.length), value.max(1.0));
        assert_eq!(f(g.stiffness), value.clamp(0.0, 1.0));
        assert_eq!(f(g.damping), value.clamp(0.0, 1.0));
    }
}

#[test]
fn the_later_setting_counts() {
    let mut plugin = GrapplePlugin::new();
    let mut canvas = scene(&[("a", 1.0, 1.0), ("b", 10.0, 20.0)]);
    attach(&mut plugin, &mut canvas, &["a"], rope(5.0));
    let t = || target(&["a"]);
    let commands = vec![
        GrappleCommand::SetLength { target: t(), value: n(30.0) },
        GrappleCommand::SetLength { target: t(), value: n(40.0) },
        GrappleCommand::SetAnchorObject { target: t(), anchor_object: s("b") },
        GrappleCommand::SetAnchor { target: t(), x: n(3.0), y: n(4.0) },
    ];
    for command in &commands {
        assert!(plugin.on_call(&mut canvas, Some(command)));
    }
    let g = held(&plugin, "a").unwrap();
    assert_eq!(f(g.length), 40.0);
    assert_eq!(pair(g.anchor), (3.0, 4.0));
    assert_eq!(g.anchor_object, None);
}

#[test]
fn a_point_stays_until_the_body_to_follow_is_known() {
    let mut plugin = GrapplePlugin::new();
    let mut canvas = scene(&[("a", 1.0, 1.0)]);
    attach(&mut plugin, &mut canvas, &["a"], rope(500.0));
    let t = || target(&["a"]);
    let set = GrappleCommand::SetAnchor { target: t(), x: n(3.0), y: n(4.0) };
    assert!(plugin.on_call(&mut canvas, Some(&set)));
    let follow = GrappleCommand::SetAnchorObject { target: t(), anchor_object: s("nobody") };
    assert!(plugin.on_call(&mut canvas, Some(&follow)));
    plugin.on_post_solve(&mut canvas, n(0.02));
    assert_eq!(pair(held(&plugin, "a").unwrap().anchor), (3.0, 4.0));
    assert_eq!(held(&plugin, "a").unwrap().anchor_object, Some(s("nobody")));
}

#[test]
fn a_released_body_is_free() {
    let mut plugin = GrapplePlugin::new();
    let mut canvas = scene(&[("a", 100.0, 0.0), ("b", 0.0, 200.0)]);
    attach(&mut plugin, &mut canvas, &["a", "b"], rope(5.0));
    let release = GrappleCommand::Release { target: target(&["a"]) };
    assert!(plugin.on_call(&mut canvas, Some(&release)));
    plugin.on_post_solve(&mut canvas, n(0.02));
    assert_eq!(place(&canvas, 0), (100.0, 0.0));
    assert_eq!(pair(canvas.layout.offsets[0]), (100.0, 0.0));
    assert!(place(&canvas, 1) != (0.0, 200.0));
    assert_eq!(place(&canvas, 1), pair(canvas.layout.offsets[1]));
}

#[test]
fn a_set_anchor_stays_through_many_frames() {
    let mut plugin = GrapplePlugin::new();
    let mut canvas = scene(&[("a", 1.0, 1.0), ("b", 10.0, 20.0)]);
    attach(&mut plugin, &mut canvas, &["a"], GrappleConstraint::to_object(s("b"), n(5.0)));
    let command = GrappleCommand::SetAnchor { target: target(&["a"]), x: n(3.0), y: n(4.0) };
    assert!(plugin.on_call(&mut canvas, Some(&command)));
    for frame in 0..50 {
        canvas.store.objects[0].position = p(frame as f32, 7.0);
        canvas.store.objects[1].position = p(-3.0 * frame as f32, 1.0);
        plugin.on_post_solve(&mut canvas, n(0.016));
        assert_eq!(pair(held(&plugin, "a").unwrap().anchor), (3.0, 4.0));
        assert!(held(&plugin, "a").unwrap().anchor_object.is_none());
    }
}

#[test]
fn a_rigid_rope_holds_a_body_at_its_length() {
    let mut seed: u64 = 23;
    let mut next = || {
        seed = seed.wrapping_mul(6364136223846793005).wrapping_add(1442695040888963407);
        ((seed >> 40) as f32) / 16384.0 - 512.0
    };
    let mut corrected = 0;
    for _ in 0..5_000 {
        let (x, y) = (next(), next());
        let anchor = (next(), next());
        let length = next().abs() / 4.0 + 1.0;
        let mut plugin = GrapplePlugin::new();
        let mut canvas = scene(&[("a", x, y)]);
        let rigid = GrappleConstraint::rigid_tether(p(anchor.0, anchor.1), n(length));
        attach(&mut plugin, &mut canvas, &["a"], rigid);
        plugin.on_post_solve(&mut canvas, n(0.016));
        let center = pair(canvas.store.objects[0].center());
        let dx = center.0 as f64 - anchor.0 as f64;
        let dy = center.1 as f64 - anchor.1 as f64;
        let reach = 520.0;
        assert!(dx.hypot(dy) <= length as f64 + reach / 262144.0);
        if place(&canvas, 0) != (x, y) {
            corrected += 1;
            assert!(dx.hypot(dy) >= length as f64 - reach / 262144.0);
        }
    }
    assert!(corrected > 1000);
}

#[test]
fn a_frame_needs_a_place_to_draw_what_it_moves() {
    let mut plugin = GrapplePlugin::new();
    let mut canvas = scene(&[("a", 100.0, 0.0), ("b", 1.0, 1.0)]);
    attach(&mut plugin, &mut canvas, &["a", "b", "nobody"], rope(5.0));
    assert!(plugin.is_drawable(&canvas));
    canvas.layout.offsets.truncate(1);
    assert!(plugin.is_drawable(&canvas));
    canvas.layout.offsets.truncate(0);
    assert!(!plugin.is_drawable(&canvas));
    canvas.layout.offsets.push(p(100.0, 0.0));
    canvas.store.objects[1].position = p(50.0, 50.0);
    assert!(!plugin.is_drawable(&canvas));
}
