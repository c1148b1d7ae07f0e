use std::sync::atomic::{AtomicUsize, Ordering};
use std::sync::Arc;

use pipe::model::{PipeBox, PipeUser};
use pipe::standard::{function_control, function_core};
use pipe::{Pipe, PipeB, PipeState, PipeU};

#[test]
fn it_works() {
    let user_01 = PipeUser::new("Hello, World !");
    let user_02 = PipeUser::new("Il fait chaud ici !");

    let box_1 = PipeBox::new();
    let box_2 = PipeBox::new();

    let box_2 = box_2.set_control(|x| {
        if x.get_item().as_str() == "Il fait chaud ici !".to_string() {
            println!("C'est pas bon");
            PipeState::RestartState
        } else {
            println!("C'est bon");
            PipeState::ConsumeState
        }
    });

    let mut pipe = Pipe::new("Hello").push_box(box_1).push_box(box_2);

    pipe.push_user(&user_01);
    pipe.push_user(&user_02);
    pipe.push_user(&user_02);
    pipe.push_user(&user_01);
}

#[test]
fn two_default_stages_complete_in_one_call() {
    let e1 = PipeUser::new("E1");
    let mut pipe = Pipe::new("p").push_box(PipeBox::new()).push_box(PipeBox::new());
    pipe.push_user(&e1);
    assert!(!pipe.has_user(&e1));
}

#[test]
fn sentinel_payload_stays_parked_at_second_stage() {
    let x = PipeUser::new("X");
    let other = PipeUser::new("Y");
    let mut first = PipeBox::new();
    first.set_internal_state(PipeState::RestartState);
    let second = PipeBox::new().set_control(|u: &PipeUser| {
        if u.get_item().as_str() == "X" {
            PipeState::RestartState
        } else {
            PipeState::ConsumeState
        }
    });
    let mut pipe = Pipe::new("p").push_box(first).push_box(second);

    for _ in 0..4 {
        pipe.push_user(&x);
        assert!(pipe.has_user(&x));
        assert_eq!(pipe.get_box(&x).internal_state(), PipeState::ConsumeState);
    }

    pipe.push_user(&other);
    assert!(!pipe.has_user(&other));
    assert!(pipe.has_user(&x));
}

#[test]
fn never_admitted_entity_is_not_tracked() {
    let e = PipeUser::new("nobody");
    let pipe: Pipe<PipeUser, PipeBox> = Pipe::new("p").push_box(PipeBox::new());
    assert!(!pipe.has_user(&e));
}

#[test]
fn last_stage_with_processing_hook_completes() {
    let e = PipeUser::new("E");
    let only = PipeBox::new().set_consume(|_u: &PipeUser| PipeState::NextState);
    let mut pipe = Pipe::new("p").push_box(only);
    pipe.push_user(&e);
    assert!(!pipe.has_user(&e));
}

#[test]
fn cascade_runs_following_stage_in_same_call() {
    let count = Arc::new(AtomicUsize::new(0));
    let seen = count.clone();
    let b = PipeBox::new().set_consume(move |_u: &PipeUser| {
        seen.fetch_add(1, Ordering::SeqCst);
        PipeState::NextState
    });
    let mut c = PipeBox::new();
    c.set_internal_state(PipeState::WaitState);
    let e = PipeUser::new("E");
    let mut pipe = Pipe::new("p").push_box(PipeBox::new()).push_box(b).push_box(c);
    pipe.push_user(&e);
    assert_eq!(count.load(Ordering::SeqCst), 1);
    assert!(pipe.has_user(&e));
    assert_eq!(pipe.get_box(&e).internal_state(), PipeState::WaitState);
}

#[test]
fn halt_needs_a_second_call() {
    let e = PipeUser::new("E");
    let mut second = PipeBox::new();
    second.set_internal_state(PipeState::WaitState);
    let mut pipe = Pipe::new("p").push_box(PipeBox::new()).push_box(second);
    pipe.push_user(&e);
    assert!(pipe.has_user(&e));
    assert_eq!(pipe.get_box(&e).internal_state(), PipeState::WaitState);
    pipe.push_user(&e);
    assert!(!pipe.has_user(&e));
}

#[test]
fn restart_keeps_the_cursor() {
    let e = PipeUser::new("E");
    let mut first = PipeBox::new().set_consume(|_u: &PipeUser| PipeState::RestartState);
    first.set_internal_state(PipeState::WaitState);
    let mut pipe = Pipe::new("p").push_box(first).push_box(PipeBox::new());
    pipe.push_user(&e);
    pipe.push_user(&e);
    assert!(pipe.has_user(&e));
    assert_eq!(pipe.get_box(&e).internal_state(), PipeState::WaitState);
}

#[test]
fn processing_wait_does_not_advance() {
    let e = PipeUser::new("E");
    let mut first = PipeBox::new().set_consume(|_u: &PipeUser| PipeState::WaitState);
    first.set_internal_state(PipeState::RestartState);
    let mut pipe = Pipe::new("p").push_box(first).push_box(PipeBox::new());
    pipe.push_user(&e);
    assert!(pipe.has_user(&e));
    assert_eq!(pipe.get_box(&e).internal_state(), PipeState::RestartState);
}

#[test]
fn admission_next_does_not_admit() {
    let e = PipeUser::new("E");
    let mut first = PipeBox::new().set_control(|_u: &PipeUser| PipeState::NextState);
    first.set_internal_state(PipeState::WaitState);
    let mut pipe = Pipe::new("p").push_box(first);
    pipe.push_user(&e);
    assert!(pipe.has_user(&e));
    assert_eq!(pipe.get_box(&e).internal_state(), PipeState::WaitState);
}

#[test]
fn readmission_after_completion_starts_at_first_stage() {
    let e = PipeUser::new("E");
    let mut first = PipeBox::new();
    first.set_internal_state(PipeState::RestartState);
    let mut second = PipeBox::new();
    second.set_internal_state(PipeState::WaitState);
    let mut pipe = Pipe::new("p").push_box(first).push_box(second);
    pipe.push_user(&e);
    pipe.push_user(&e);
    assert!(!pipe.has_user(&e));
    pipe.push_user(&e);
    assert!(pipe.has_user(&e));
    assert_eq!(pipe.get_box(&e).internal_state(), PipeState::WaitState);
}

#[test]
fn remove_user_abandons_tracking() {
    let e = PipeUser::new("E");
    let f = PipeUser::new("F");
    let mut second = PipeBox::new();
    second.set_internal_state(PipeState::WaitState);
    let mut pipe = Pipe::new("p").push_box(PipeBox::new()).push_box(second);
    pipe.push_user(&e);
    pipe.push_user(&f);
    pipe.remove_user(&e);
    assert!(!pipe.has_user(&e));
    assert!(pipe.has_user(&f));
    pipe.remove_user(&e);
    assert!(pipe.has_user(&f));
}

#[test]
fn set_user_moves_the_cursor() {
    let e = PipeUser::new("E");
    let mut first = PipeBox::new();
    first.set_internal_state(PipeState::RestartState);
    let mut second = PipeBox::new();
    second.set_internal_state(PipeState::WaitState);
    let mut pipe = Pipe::new("p").push_box(first).push_box(second);
    pipe.push_user(&e);
    assert_eq!(pipe.get_box(&e).internal_state(), PipeState::WaitState);
    pipe.set_user(&e, 0);
    assert_eq!(pipe.get_box(&e).internal_state(), PipeState::RestartState);
}

#[test]
fn advance_applies_processing_outcome() {
    let e = PipeUser::new("E");
    let mut first = PipeBox::new().set_control(|_u: &PipeUser| PipeState::WaitState);
    first.set_internal_state(PipeState::RestartState);
    let mut second = PipeBox::new();
    second.set_internal_state(PipeState::WaitState);
    let mut pipe = Pipe::new("p").push_box(first).push_box(second);
    pipe.push_user(&e);
    assert!(!pipe.advance(&e, PipeState::RestartState));
    assert_eq!(pipe.get_box(&e).internal_state(), PipeState::RestartState);
    assert!(!pipe.advance(&e, PipeState::NextState));
    assert_eq!(pipe.get_box(&e).internal_state(), PipeState::WaitState);
    assert!(!pipe.advance(&e, PipeState::NextState));
    assert!(!pipe.has_user(&e));
}

#[test]
fn advance_reports_cascade() {
    let e = PipeUser::new("E");
    let first = PipeBox::new().set_control(|_u: &PipeUser| PipeState::WaitState);
    let mut pipe = Pipe::new("p").push_box(first).push_box(PipeBox::new());
    pipe.push_user(&e);
    assert!(pipe.advance(&e, PipeState::NextState));
}

#[test]
fn default_hooks_answer_consume() {
    let e = PipeUser::new("E");
    assert_eq!(function_control(&e), PipeState::ConsumeState);
    assert_eq!(function_core(&e), PipeState::ConsumeState);
}

#[test]
fn default_box_admits_and_advances() {
    let e = PipeUser::new("E");
    let b = PipeBox::new();
    assert_eq!(b.control(&e), PipeState::ConsumeState);
    assert_eq!(b.consume(&e), PipeState::NextState);
    assert_eq!(b.internal_state(), PipeState::ConsumeState);
}

#[test]
fn hooks_replace_previous_ones() {
    let e = PipeUser::new("E");
    let b = PipeBox::new()
        .set_control(|_u: &PipeUser| PipeState::WaitState)
        .set_control(|_u: &PipeUser| PipeState::RestartState)
        .set_consume(|_u: &PipeUser| PipeState::WaitState);
    assert_eq!(b.control(&e), PipeState::RestartState);
    assert_eq!(b.consume(&e), PipeState::WaitState);
}

#[test]
fn users_compare_by_payload() {
    let a = PipeUser::new("same");
    let b = PipeUser::new("same");
    let c = PipeUser::new("other");
    assert!(a == b);
    assert!(a != c);
    assert_eq!(a.get_item().as_str(), "same");
}

#[test]
fn equal_users_share_one_entry() {
    let a = PipeUser::new("same");
    let b = PipeUser::new("same");
    let mut second = PipeBox::new();
    second.set_internal_state(PipeState::WaitState);
    let mut pipe = Pipe::new("p").push_box(PipeBox::new()).push_box(second);
    pipe.push_user(&a);
    assert!(pipe.has_user(&b));
    pipe.push_user(&b);
    assert!(!pipe.has_user(&a));
}

#[test]
fn greeting_sequence_outcomes() {
    let user_01 = PipeUser::new("Hello, World !");
    let user_02 = PipeUser::new("Il fait chaud ici !");
    let mut box_1 = PipeBox::new();
    box_1.set_internal_state(PipeState::RestartState);
    let box_2 = PipeBox::new().set_control(|x: &PipeUser| {
        if x.get_item().as_str() == "Il fait chaud ici !" {
            PipeState::RestartState
        } else {
            PipeState::ConsumeState
        }
    });
    let mut pipe = Pipe::new("Hello").push_box(box_1).push_box(box_2);

    pipe.push_user(&user_01);
    assert!(!pipe.has_user(&user_01));
    pipe.push_user(&user_02);
    assert!(pipe.has_user(&user_02));
    assert_eq!(pipe.get_box(&user_02).internal_state(), PipeState::ConsumeState);
    pipe.push_user(&user_02);
    assert!(pipe.has_user(&user_02));
    assert_eq!(pipe.get_box(&user_02).internal_state(), PipeState::ConsumeState);
    pipe.push_user(&user_01);
    assert!(!pipe.has_user(&user_01));
    assert!(pipe.has_user(&user_02));
}
