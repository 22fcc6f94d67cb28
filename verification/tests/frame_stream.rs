use ascdump::step;
use ascdump::AscParseError;
use ascdump::AscParser;
use ascdump::CanFrame;
use ascdump::Step;
use std::str::FromStr;

const CLASSIC: &str = "0.962604 3 368 Rx d 4 cc 55 01 00 Length = 0 BitCount = 0 ID = 872";
const CAN_FD: &str = "7.392600 CANFD 1 Rx 6e   1 0 6 6 ec 0a 22 ff ff f1 0 0 3000 0 0 0 0 0";

fn lines_of(trace: &str) -> Vec<String> {
    trace.lines().map(String::from).collect()
}

fn with_seconds(frame: CanFrame) -> (f32, u8, u32, usize, Vec<u8>) {
    let seconds = f32::from_str(&frame.timestamp).expect("a decoded timestamp is a float literal");
    (seconds, frame.bus_id, frame.id, frame.length, frame.payload)
}

#[test]
fn iterate_over_lines() {
    let lines = String::from(
        "0.962604 3 368 Rx d 4 cc 55 01 00 Length = 0 BitCount = 0 ID = 872\n\
            7.392600 CANFD 1 Rx 6e   1 0 6 6 ec 0a 22 ff ff f1 0 0 3000 0 0 0 0 0",
    );

    let mut parser = AscParser::new(lines_of(&lines));

    assert_eq!(
        parser.next().map(with_seconds),
        Some((0.962604, 3, 0x368, 4, vec![0xCC, 0x55, 0x01, 0x00]))
    );
    assert_eq!(
        parser.next().map(with_seconds),
        Some((7.392600, 1, 0x6e, 6, vec![0xEC, 0x0A, 0x22, 0xFF, 0xFF, 0xF1]))
    );
    assert_eq!(parser.next(), None);
}

#[test]
fn iterate_over_lines_with_bus_filter() {
    let lines = String::from(
        "0.962604 3 368 Rx d 4 cc 55 01 00 Length = 0 BitCount = 0 ID = 872\n\
            7.392600 CANFD 1 Rx 6e   1 0 6 6 ec 0a 22 ff ff f1 0 0 3000 0 0 0 0 0",
    );

    let mut source = AscParser::new(lines_of(&lines));
    let mut parser = std::iter::from_fn(move || source.next()).filter(|frame| frame.bus_id == 1);

    assert_eq!(
        parser.next().map(with_seconds),
        Some((7.392600, 1, 0x6e, 6, vec![0xEC, 0x0A, 0x22, 0xFF, 0xFF, 0xF1]))
    );
    assert_eq!(parser.next(), None);
}

#[test]
fn stream_yields_frames_as_text() {
    let mut parser = AscParser::new(vec![String::from(CLASSIC), String::from(CAN_FD)]);
    assert_eq!(
        parser.next(),
        Some(CanFrame {
            timestamp: String::from("0.962604"),
            bus_id: 3,
            id: 0x368,
            length: 4,
            payload: vec![0xCC, 0x55, 0x01, 0x00],
        })
    );
    assert_eq!(
        parser.next(),
        Some(CanFrame {
            timestamp: String::from("7.392600"),
            bus_id: 1,
            id: 0x6e,
            length: 6,
            payload: vec![0xEC, 0x0A, 0x22, 0xFF, 0xFF, 0xF1],
        })
    );
    assert_eq!(parser.next(), None);
}

#[test]
fn empty_second_line_is_skipped() {
    let mut parser = AscParser::new(vec![String::from(CLASSIC), String::new()]);
    assert_eq!(parser.next(), CanFrame::from_str(CLASSIC).ok());
    assert_eq!(parser.next(), None);
    // The stream stays at its end.
    assert_eq!(parser.next(), None);
    assert_eq!(parser.next(), None);
}

#[test]
fn stream_over_no_lines_is_empty() {
    let mut parser = AscParser::new(Vec::new());
    assert_eq!(parser.next(), None);
    assert_eq!(AscParser::new(Vec::new()).collect(), Vec::new());
}

#[test]
fn stream_skips_lines_that_do_not_decode() {
    let trace = [
        "date Mon Jan 1 10:00:00 2024",
        "base hex  timestamps absolute",
        "",
        "0.1 1 10 Rx d 1 aa",
        "0.2 1 11 Rx d 2 bb",
        "0.3 1 12 Rx d 1 __",
        "   ",
        "0.4 CANFD 2 Rx 13x 1 0 6 2 cc dd",
        "End TriggerBlock",
    ];
    let lines: Vec<String> = trace.iter().map(|line| String::from(*line)).collect();

    let frames = AscParser::new(lines.clone()).collect();
    let ids: Vec<u32> = frames.iter().map(|frame| frame.id).collect();
    assert_eq!(ids, vec![0x10, 0x13]);
    assert!(frames.len() <= lines.len());

    // Exactly the lines that the decoder accepts, in their order.
    let accepted: Vec<CanFrame> =
        lines.iter().filter_map(|line| CanFrame::from_str(line).ok()).collect();
    assert_eq!(frames, accepted);

    // One frame at a time gives the same.
    let mut parser = AscParser::new(lines);
    let mut one_by_one = Vec::new();
    while let Some(frame) = parser.next() {
        one_by_one.push(frame);
    }
    assert_eq!(one_by_one, frames);
}

#[test]
fn collect_gives_what_is_left() {
    let lines: Vec<String> =
        ["0.1 1 10 Rx d 0", "junk", "0.2 1 11 Rx d 0", "0.3 1 12 Rx d 0"]
            .iter()
            .map(|line| String::from(*line))
            .collect();
    let mut parser = AscParser::new(lines);
    assert_eq!(parser.next().map(|frame| frame.id), Some(0x10));
    let rest: Vec<u32> = parser.collect().iter().map(|frame| frame.id).collect();
    assert_eq!(rest, vec![0x11, 0x12]);
}

#[test]
fn stream_of_lines_that_all_fail_is_empty() {
    let lines: Vec<String> = ["a", "", "0.5", "0.5 1"].iter().map(|line| String::from(*line)).collect();
    assert_eq!(AscParser::new(lines).collect(), Vec::new());
}

#[test]
fn step_decides_for_each_event() {
    assert_eq!(step(None), Step::End);
    assert_eq!(step(Some("")), Step::Skip);
    assert_eq!(step(Some("0.962604 3 368 Rx d 4 cc 55 __ 00")), Step::Skip);
    assert_eq!(step(Some(CLASSIC)), Step::Yield(CanFrame::from_str(CLASSIC).unwrap()));
    assert_eq!(
        CanFrame::from_str("0.962604 3 368 Rx d 4 cc 55 __ 00"),
        Err(AscParseError::InvalidPayload { str: String::from("__") })
    );
}

#[test]
fn steps_over_a_source_give_the_stream() {
    let lines = [CLASSIC, "", "junk", CAN_FD];
    let mut source = lines.iter();
    let mut frames = Vec::new();
    loop {
        match step(source.next().copied()) {
            Step::Yield(frame) => frames.push(frame),
            Step::Skip => {}
            Step::End => break,
        }
    }
    let whole = AscParser::new(lines.iter().map(|line| String::from(*line)).collect()).collect();
    assert_eq!(frames, whole);
    assert_eq!(frames.len(), 2);
}
