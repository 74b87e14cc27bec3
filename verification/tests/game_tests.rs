use summit_surveyor::events::{ButtonEvent, ButtonState, MouseButton};
use summit_surveyor::graph::GraphNode;
use summit_surveyor::gui::{react_click_state, FontSize, GuiItemClickState};
use summit_surveyor::text::TextBuilderContainer;
use summit_surveyor::lift::{LiftBuild, LiftBuilderState};
use summit_surveyor::model::{ModelRenderData, RenderLayer};

#[test]
fn buttons_follow_presses_and_releases() {
    let mut s = ButtonState::new();
    s.process_events(&[
        ButtonEvent::MouseDown { button: MouseButton::Left },
        ButtonEvent::KeyDown { scan_code: 30 },
        ButtonEvent::KeyDown { scan_code: 31 },
        ButtonEvent::MouseDown { button: MouseButton::Other(7) },
        ButtonEvent::Other,
        ButtonEvent::KeyUp { scan_code: 30 },
        ButtonEvent::MouseDown { button: MouseButton::Right },
    ]);
    assert!(s.left_mouse_down);
    assert!(s.right_mouse_down);
    assert!(!s.middle_mouse_down);
    assert!(!s.key_down(30));
    assert!(s.key_down(31));
    s.process_events(&[ButtonEvent::MouseUp { button: MouseButton::Left }]);
    assert!(!s.left_mouse_down);
    assert!(s.right_mouse_down);
}

#[test]
fn key_press_then_release_leaves_it_free() {
    let mut s = ButtonState::new();
    s.apply(&ButtonEvent::KeyDown { scan_code: 5 });
    assert!(s.key_down(5));
    s.apply(&ButtonEvent::KeyUp { scan_code: 5 });
    assert!(!s.key_down(5));
    s.apply(&ButtonEvent::KeyUp { scan_code: 5 });
    assert!(!s.key_down(5));
}

#[test]
fn gui_square_click_states() {
    assert_eq!(react_click_state(GuiItemClickState::Default, false, false), (GuiItemClickState::Default, false));
    assert_eq!(react_click_state(GuiItemClickState::Default, true, false), (GuiItemClickState::Hover, true));
    assert_eq!(react_click_state(GuiItemClickState::Hover, true, true), (GuiItemClickState::Click, true));
    assert_eq!(react_click_state(GuiItemClickState::Click, false, true), (GuiItemClickState::Click, false));
    assert_eq!(react_click_state(GuiItemClickState::Click, false, false), (GuiItemClickState::Default, true));
}

#[test]
fn lift_builder_cycles_and_builds() {
    let mut s = LiftBuilderState::new();
    assert_eq!(s.lift, LiftBuild::Idle);
    // while idle, both markers are hidden
    assert_eq!(s.bottom_lift(Some(GraphNode(1, 1)), true), RenderLayer::DoNotRender);
    let mut first_frame = true;
    assert_eq!(s.top_lift(&mut first_frame, Some(GraphNode(1, 1)), true), (RenderLayer::DoNotRender, None));
    assert!(first_frame);
    s.click_builder_button(false);
    assert_eq!(s.lift, LiftBuild::Idle);
    s.click_builder_button(true);
    assert_eq!(s.lift, LiftBuild::First);
    // the bottom marker follows the mouse until a click fixes it
    assert_eq!(s.bottom_lift(Some(GraphNode(2, 3)), false), RenderLayer::Main);
    assert_eq!(s.bottom_position, Some(GraphNode(2, 3)));
    assert_eq!(s.bottom_lift(None, true), RenderLayer::Main);
    assert_eq!(s.bottom_position, Some(GraphNode(2, 3)));
    assert_eq!(s.lift, LiftBuild::Second);
    // a click in the top marker's first frame is ignored
    assert_eq!(s.top_lift(&mut first_frame, Some(GraphNode(8, 9)), true), (RenderLayer::Main, None));
    assert!(!first_frame);
    assert_eq!(s.lift, LiftBuild::Second);
    assert_eq!(
        s.top_lift(&mut first_frame, None, true),
        (RenderLayer::Main, Some((GraphNode(2, 3), GraphNode(8, 9))))
    );
    assert_eq!(s.lift, LiftBuild::Idle);
}

#[test]
fn lift_builder_without_top_builds_nothing() {
    let mut s = LiftBuilderState::new();
    s.click_builder_button(true);
    s.click_builder_button(true);
    assert_eq!(s.lift, LiftBuild::Second);
    let mut first_frame = false;
    assert_eq!(s.top_lift(&mut first_frame, None, true), (RenderLayer::Main, None));
    assert_eq!(s.lift, LiftBuild::Idle);
    s.click_builder_button(true);
    s.click_builder_button(true);
    s.click_builder_button(true);
    assert_eq!(s.lift, LiftBuild::Idle);
}

#[test]
fn model_render_layers() {
    let d = ModelRenderData::new();
    assert_eq!(d.get_render_layer(), RenderLayer::Main);
    let mut d = d.with_new_layer(RenderLayer::DoNotRender);
    assert_eq!(d.get_render_layer(), RenderLayer::DoNotRender);
    d.set_render_layer(RenderLayer::Main);
    assert_eq!(d.get_render_layer(), RenderLayer::Main);
}

#[test]
fn text_builders_are_made_once_per_size() {
    let mut c: TextBuilderContainer<String> = TextBuilderContainer::new();
    assert_eq!(c.get(FontSize(10), |f| format!("font {}", f.0)), "font 10");
    // a second request keeps the builder made first
    assert_eq!(c.get(FontSize(10), |_| "other".to_string()), "font 10");
    c.get_mut(FontSize(12), |f| format!("font {}", f.0)).push_str("!");
    assert_eq!(c.get(FontSize(12), |_| "other".to_string()), "font 12!");
    assert_eq!(c.get(FontSize(10), |_| "other".to_string()), "font 10");
}

#[test]
fn lift_builder_default_is_idle() {
    let s = LiftBuilderState::default();
    assert_eq!(s, LiftBuilderState::new());
    assert_eq!(s.lift, LiftBuild::Idle);
    assert_eq!(s.bottom_position, None);
    assert_eq!(s.top_position, None);
}
