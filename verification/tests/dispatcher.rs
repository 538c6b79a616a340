use vodchat::{Dispatcher, Step};

fn all_steps(sources: usize) -> Vec<Step> {
    let mut dispatcher = Dispatcher::new(sources);
    let mut steps = Vec::new();
    while !dispatcher.is_finished() {
        steps.push(dispatcher.next_step());
    }
    steps
}

#[test]
fn no_sources_nothing_to_do() {
    let mut dispatcher = Dispatcher::new(0);
    assert!(dispatcher.is_finished());
    assert_eq!(dispatcher.next_step(), Step::Finished);
    assert!(all_steps(0).is_empty());
}

#[test]
fn one_source_takes_five_steps() {
    assert_eq!(
        all_steps(1),
        vec![Step::Start(0), Step::Announce(0), Step::Release(0), Step::Join(0), Step::Separate(0)]
    );
}

#[test]
fn two_sources_start_together_and_print_in_turn() {
    assert_eq!(
        all_steps(2),
        vec![
            Step::Start(0),
            Step::Start(1),
            Step::Announce(0),
            Step::Release(0),
            Step::Join(0),
            Step::Separate(0),
            Step::Announce(1),
            Step::Release(1),
            Step::Join(1),
            Step::Separate(1),
        ]
    );
}

#[test]
fn steps_follow_the_plan_for_many_sources() {
    let sources: usize = 7;
    let steps = all_steps(sources);
    assert_eq!(steps.len(), 5 * sources);
    for (taken, step) in steps.iter().enumerate() {
        let expected = if taken < sources {
            Step::Start(taken)
        } else {
            let turn = (taken - sources) / 4;
            match (taken - sources) % 4 {
                0 => Step::Announce(turn),
                1 => Step::Release(turn),
                2 => Step::Join(turn),
                _ => Step::Separate(turn),
            }
        };
        assert_eq!(*step, expected);
    }
}

#[test]
fn finished_stays_finished() {
    let mut dispatcher = Dispatcher::new(1);
    for _ in 0..5 {
        assert!(!dispatcher.is_finished());
        dispatcher.next_step();
    }
    assert!(dispatcher.is_finished());
    assert_eq!(dispatcher.next_step(), Step::Finished);
    assert_eq!(dispatcher.next_step(), Step::Finished);
    assert!(dispatcher.is_finished());
}
