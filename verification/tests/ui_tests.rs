use biot_savart::ui::{UiAction, UiFlags};

fn run_frame(flags: &mut UiFlags, generation_succeeds: bool) -> Vec<UiAction> {
    let mut done = Vec::new();
    while let Some(a) = flags.next_action() {
        done.push(a);
        flags.complete(a, generation_succeeds);
        assert!(done.len() <= 7);
    }
    done
}

#[test]
fn idle_frame_does_nothing() {
    let mut f = UiFlags::new();
    assert_eq!(run_frame(&mut f, true), vec![]);
}

#[test]
fn all_requests_are_served_in_order_then_recompute() {
    let mut f = UiFlags {
        clear_wire_clicked: true,
        generate_parametric_clicked: true,
        add_wire_point_clicked: true,
        set_probe_clicked: false,
        dirty: false,
    };
    assert_eq!(
        run_frame(&mut f, true),
        vec![UiAction::ClearWire, UiAction::GenerateParametric, UiAction::AddWirePoint, UiAction::Recompute]
    );
    assert_eq!(f, UiFlags::new());
}

#[test]
fn failed_generation_alone_does_not_recompute() {
    let mut f = UiFlags { generate_parametric_clicked: true, ..UiFlags::new() };
    assert_eq!(run_frame(&mut f, false), vec![UiAction::GenerateParametric]);
    let mut f = UiFlags { generate_parametric_clicked: true, ..UiFlags::new() };
    assert_eq!(run_frame(&mut f, true), vec![UiAction::GenerateParametric, UiAction::Recompute]);
}

#[test]
fn dirty_or_probe_request_recomputes() {
    let mut f = UiFlags { dirty: true, ..UiFlags::new() };
    assert_eq!(run_frame(&mut f, false), vec![UiAction::Recompute]);
    let mut f = UiFlags { set_probe_clicked: true, ..UiFlags::new() };
    assert_eq!(run_frame(&mut f, false), vec![UiAction::Recompute]);
    let mut f = UiFlags { add_wire_point_clicked: true, ..UiFlags::new() };
    assert_eq!(run_frame(&mut f, false), vec![UiAction::AddWirePoint, UiAction::Recompute]);
}
