//! The drag-and-drop offer decisions, case by case.

use damage_tracker::dnd::{
    accept_mime, drop_validated, finish_offer, is_single_action, new_offer, receive_allowed,
    record_chosen_action, record_drop, set_actions_choice, InvalidFinish, SourceMetadata,
    DND_ACTION_ASK, DND_ACTION_COPY, DND_ACTION_MOVE,
};

fn meta() -> SourceMetadata {
    SourceMetadata {
        mime_types: vec!["text/plain".to_string(), "text/html".to_string()],
        dnd_action: DND_ACTION_COPY | DND_ACTION_MOVE,
    }
}

#[test]
fn fresh_offer_shape() {
    let o = new_offer();
    assert!(o.active && o.accepted && !o.dropped);
    assert_eq!(o.chosen_action, 0);
}

#[test]
fn accept_known_and_unknown_mime() {
    let m = meta();
    let mut o = new_offer();
    accept_mime(&mut o, &m, &Some("text/html".to_string()));
    assert!(o.accepted);
    accept_mime(&mut o, &m, &Some("image/png".to_string()));
    assert!(!o.accepted);
    accept_mime(&mut o, &m, &None);
    assert!(!o.accepted);
}

#[test]
fn receive_needs_active_offer_and_known_mime() {
    let m = meta();
    let mut o = new_offer();
    assert!(receive_allowed(&o, &m, &"text/plain".to_string()));
    assert!(!receive_allowed(&o, &m, &"image/png".to_string()));
    o.active = false;
    assert!(!receive_allowed(&o, &m, &"text/plain".to_string()));
}

#[test]
fn finish_error_cases_in_order() {
    let mut o = new_offer();
    o.active = false;
    assert_eq!(finish_offer(&mut o), Err(InvalidFinish::NotActive));
    let mut o = new_offer();
    o.accepted = false;
    assert_eq!(finish_offer(&mut o), Err(InvalidFinish::NotAccepted));
    let mut o = new_offer();
    assert_eq!(finish_offer(&mut o), Err(InvalidFinish::NotDropped));
    let mut o = new_offer();
    o.dropped = true;
    assert_eq!(finish_offer(&mut o), Err(InvalidFinish::NoAction));
    let mut o = new_offer();
    o.dropped = true;
    record_chosen_action(&mut o, DND_ACTION_COPY);
    assert_eq!(finish_offer(&mut o), Ok(()));
    assert!(!o.active);
}

#[test]
fn finish_error_messages() {
    assert_eq!(
        InvalidFinish::NotActive.message(),
        "Cannot finish a data offer that is no longer active."
    );
    assert_eq!(
        InvalidFinish::NoAction.message(),
        "Cannot finish a data offer with no valid action."
    );
}

#[test]
fn single_actions_only() {
    assert!(is_single_action(0));
    assert!(is_single_action(DND_ACTION_COPY));
    assert!(is_single_action(DND_ACTION_MOVE));
    assert!(is_single_action(DND_ACTION_ASK));
    assert!(!is_single_action(DND_ACTION_COPY | DND_ACTION_MOVE));
    assert!(!is_single_action(8));
}

#[test]
fn set_actions_intersects_masks() {
    let possible = set_actions_choice(
        DND_ACTION_COPY | DND_ACTION_MOVE,
        DND_ACTION_MOVE | DND_ACTION_ASK,
        DND_ACTION_MOVE,
    );
    assert_eq!(possible, Ok(DND_ACTION_MOVE));
    assert!(set_actions_choice(DND_ACTION_COPY, DND_ACTION_COPY, 3).is_err());
}

#[test]
fn drop_outcome() {
    let mut o = new_offer();
    record_chosen_action(&mut o, DND_ACTION_COPY);
    assert!(drop_validated(&o));
    record_drop(&mut o, true);
    assert!(o.dropped && o.active);
    let mut o = new_offer();
    assert!(!drop_validated(&o));
    record_drop(&mut o, false);
    assert!(!o.active && !o.dropped);
}
