use regex::Regex;
use std::sync::mpsc::{channel, Receiver, Sender};
use vodchat::{Dispatcher, Message, Step, Worker};

fn message(user: &str, body: &str, timestamp: u64) -> Message {
    Message { user: user.to_string(), body: body.to_string(), timestamp }
}

struct Lane {
    label: String,
    timeline: Vec<Vec<Message>>,
    worker: Worker,
    sender: Sender<()>,
    receiver: Receiver<()>,
}

fn lane(label: &str, timeline: Vec<Vec<Message>>) -> Lane {
    let (sender, receiver) = channel();
    Lane { label: label.to_string(), timeline, worker: Worker::new(), sender, receiver }
}

/// Lets the worker of `lane` take up to `batches` batches of its timeline.
fn work(lane: &mut Lane, batches: usize, filter: &Regex, output: &mut Vec<String>) {
    for _ in 0..batches {
        if lane.timeline.is_empty() {
            return;
        }
        let batch = lane.timeline.remove(0);
        output.extend(lane.worker.feed(batch, filter, &lane.receiver));
    }
}

/// Lets the worker of `lane` run to its end.
fn finish(lane: &mut Lane, filter: &Regex, output: &mut Vec<String>) {
    work(lane, usize::MAX, filter, output);
    if lane.worker.awaits_release() {
        lane.receiver.recv().unwrap();
        output.extend(lane.worker.release());
    }
}

/// Runs the dispatcher over `lanes` on one thread. Each worker takes `ahead`
/// batches when it is started, before anything is printed, and the rest when
/// the dispatcher joins it.
fn run(mut lanes: Vec<Lane>, filter: &Regex, ahead: usize) -> Vec<String> {
    let mut output = Vec::new();
    let mut dispatcher = Dispatcher::new(lanes.len());
    loop {
        match dispatcher.next_step() {
            Step::Start(i) => work(&mut lanes[i], ahead, filter, &mut output),
            Step::Announce(i) => output.push(lanes[i].label.clone()),
            Step::Release(i) => lanes[i].sender.send(()).unwrap(),
            Step::Join(i) => finish(&mut lanes[i], filter, &mut output),
            Step::Separate(_) => output.push(String::new()),
            Step::Finished => return output,
        }
    }
}

fn two_sources() -> Vec<Lane> {
    vec![
        lane("S1", vec![vec![message("alice", "hello", 5), message("bob", "world", 65)]]),
        lane("S2", vec![vec![message("carol", "hi", 1)]]),
    ]
}

fn two_sources_expected() -> Vec<&'static str> {
    vec!["S1", "[00:00:05][alice]: hello", "", "S2", "[00:00:01][carol]: hi", ""]
}

#[test]
fn two_sources_print_in_order_when_workers_run_ahead() {
    let filter = Regex::new("h").unwrap();
    assert_eq!(run(two_sources(), &filter, usize::MAX), two_sources_expected());
}

#[test]
fn two_sources_print_in_order_when_workers_run_late() {
    let filter = Regex::new("h").unwrap();
    assert_eq!(run(two_sources(), &filter, 0), two_sources_expected());
}

#[test]
fn an_empty_timeline_prints_label_and_blank_line() {
    let filter = Regex::new("h").unwrap();
    assert_eq!(run(vec![lane("S", Vec::new())], &filter, usize::MAX), vec!["S", ""]);
    assert_eq!(run(vec![lane("S", Vec::new())], &filter, 0), vec!["S", ""]);
}

#[test]
fn an_empty_timeline_between_others_holds_nobody_up() {
    let filter = Regex::new("h").unwrap();
    let lanes = vec![
        lane("A", vec![vec![message("a", "ha", 1)]]),
        lane("B", Vec::new()),
        lane("C", vec![Vec::new(), vec![message("c", "no", 2)], vec![message("c", "oh", 3)]]),
    ];
    assert_eq!(
        run(lanes, &filter, 1),
        vec!["A", "[00:00:01][a]: ha", "", "B", "", "C", "[00:00:03][c]: oh", ""]
    );
}

#[test]
fn no_sources_print_nothing() {
    let filter = Regex::new("h").unwrap();
    assert!(run(Vec::new(), &filter, usize::MAX).is_empty());
}

#[test]
fn the_output_does_not_depend_on_how_far_workers_run_ahead() {
    let filter = Regex::new("[0-9]$").unwrap();
    let build = || {
        let mut lanes = Vec::new();
        for source in 0..4u64 {
            let mut timeline = Vec::new();
            for batch in 0..source + 1 {
                let mut messages = Vec::new();
                for n in 0..3u64 {
                    let body = if (source + batch + n) % 2 == 0 {
                        format!("keep {}", n)
                    } else {
                        format!("drop {}!", n)
                    };
                    messages.push(message("u", &body, 60 * batch + n));
                }
                timeline.push(messages);
            }
            lanes.push(lane(&format!("source {}", source), timeline));
        }
        lanes
    };
    let reference = run(build(), &filter, 0);
    assert_eq!(reference.iter().filter(|line| line.starts_with("source ")).count(), 4);
    assert_eq!(reference.iter().filter(|line| line.is_empty()).count(), 4);
    assert_eq!(reference.iter().filter(|line| line.contains("keep")).count(), 16);
    assert_eq!(reference.iter().filter(|line| line.contains("drop")).count(), 0);
    for ahead in 1..6 {
        assert_eq!(run(build(), &filter, ahead), reference);
    }
}

#[test]
fn nothing_of_a_source_is_printed_before_its_label() {
    let filter = Regex::new("h").unwrap();
    let mut lanes = two_sources();
    let mut output = Vec::new();
    let mut dispatcher = Dispatcher::new(lanes.len());
    assert_eq!(dispatcher.next_step(), Step::Start(0));
    work(&mut lanes[0], usize::MAX, &filter, &mut output);
    assert_eq!(dispatcher.next_step(), Step::Start(1));
    work(&mut lanes[1], usize::MAX, &filter, &mut output);
    assert!(output.is_empty());
    assert!(lanes[0].worker.awaits_release());
    assert!(lanes[1].worker.awaits_release());
    assert_eq!(dispatcher.next_step(), Step::Announce(0));
    output.push(lanes[0].label.clone());
    assert_eq!(dispatcher.next_step(), Step::Release(0));
    lanes[0].sender.send(()).unwrap();
    assert_eq!(dispatcher.next_step(), Step::Join(0));
    finish(&mut lanes[0], &filter, &mut output);
    assert_eq!(output, vec!["S1", "[00:00:05][alice]: hello"]);
    assert!(lanes[1].worker.awaits_release());
}

#[test]
fn every_timeline_is_taken_once_and_to_its_end() {
    let filter = Regex::new("h").unwrap();
    let mut lanes = two_sources();
    let mut output = Vec::new();
    let mut dispatcher = Dispatcher::new(lanes.len());
    let mut started = vec![0; lanes.len()];
    loop {
        match dispatcher.next_step() {
            Step::Start(i) => {
                started[i] += 1;
                work(&mut lanes[i], 1, &filter, &mut output);
            }
            Step::Announce(i) => output.push(lanes[i].label.clone()),
            Step::Release(i) => lanes[i].sender.send(()).unwrap(),
            Step::Join(i) => finish(&mut lanes[i], &filter, &mut output),
            Step::Separate(_) => output.push(String::new()),
            Step::Finished => break,
        }
    }
    assert_eq!(started, vec![1, 1]);
    for lane in &lanes {
        assert!(lane.timeline.is_empty());
        assert!(lane.worker.is_live());
        assert!(lane.receiver.try_recv().is_err());
    }
    assert_eq!(output, two_sources_expected());
}
