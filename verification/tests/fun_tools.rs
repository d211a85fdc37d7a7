use maze_robot::fun_tools::{apply, compose, State, StateT};
use std::collections::VecDeque;

#[test]
fn test_state_stack() {
    let pop: State<_, _, usize, _> =
        State::new(|mut s: VecDeque<usize>| s.pop_back().map(|a| (a, s)));
    let push = |x: usize| {
        State::<_, _, usize, _>::new(move |mut s: VecDeque<usize>| {
            s.push_back(x);
            Some(((), s))
        })
    };

    let s1 = VecDeque::new();

    let act = State::run(push(5), s1)
        .and_then(|(_, s2)| State::run(push(7), s2))
        .and_then(|(_, s3)| State::run(pop.clone(), s3))
        .and_then(|(x, s4)| State::run(pop, s4).and_then(|(y, _)| Some(x + y)));

    let exp = Some(12);

    assert_eq!(act, exp)
}

#[test]
fn state_runs_its_function() {
    let double = State::<_, _, u32, _>::new(|s: u32| (s + 1, s * 2));
    assert_eq!(double.run(21), (22, 42));
}

#[test]
fn state_transformer_runs_its_function() {
    let mut calls = 0;
    let count = StateT::<_, u32, _, _>::new(|s: u32| {
        calls += 1;
        Some((s, s + 1))
    });
    assert_eq!(count.run(7), Some((7, 8)));
    assert_eq!(calls, 1);
}

#[test]
fn compose_runs_the_first_function_first() {
    let both = compose(|x: i32| x + 1, |y: i32| y * 2);
    assert_eq!(both(3), 8);
    let spelled = compose(|x: usize| x * 10, |y: usize| format!("<{y}>"));
    assert_eq!(spelled(4), "<40>");
}

#[test]
fn apply_hands_the_value_to_the_function() {
    let number = 5;
    let held = apply(&number);
    assert_eq!(held(|x: &i32| x + 1), 6);
    let text = String::from("maze");
    let held = apply(&text);
    assert_eq!(held(|t: &String| t.len()), 4);
}
