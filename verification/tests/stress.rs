use hithit::decode::MessageEntity;
use hithit::kind::FormatKind;
use hithit::kind_set::KindSet;
use hithit::memory::{MessageMeta, ReplyBooking};
use hithit::segments::{Segment, Segments};
use hithit::user::User;

/// A small generator of numbers that gives the same numbers in every run.
struct Numbers {
    state: u64,
}

impl Numbers {
    fn new(seed: u64) -> Self {
        Numbers { state: seed }
    }

    fn next(&mut self) -> u64 {
        self.state = self
            .state
            .wrapping_mul(6364136223846793005)
            .wrapping_add(1442695040888963407);
        self.state >> 33
    }

    fn below(&mut self, n: usize) -> usize {
        (self.next() % (n as u64)) as usize
    }
}

fn palette() -> Vec<FormatKind> {
    vec![
        FormatKind::Bold,
        FormatKind::Italic,
        FormatKind::Code,
        FormatKind::TextLink { url: "https://a.example/".to_string() },
        FormatKind::TextLink { url: "https://b.example/".to_string() },
    ]
}

fn letters() -> Vec<char> {
    vec!['a', ' ', '\u{1F600}', '\u{4F60}', '{', 'z']
}

fn random_text(numbers: &mut Numbers, most: usize) -> String {
    let n = numbers.below(most + 1);
    let mut text = String::new();
    for _ in 0..n {
        text.push(letters()[numbers.below(letters().len())]);
    }
    text
}

fn units(text: &str) -> usize {
    text.encode_utf16().count()
}

/// Which code units each kind of the palette formats, by the runs.
fn marks_of_runs(runs: &Segments) -> Vec<Vec<bool>> {
    let total: usize = (0..runs.len()).map(|i| units(&runs.get(i).text)).sum();
    let mut marks = vec![vec![false; total]; palette().len()];
    let mut offset = 0;
    for i in 0..runs.len() {
        let run = runs.get(i);
        let n = units(&run.text);
        for (k, kind) in palette().iter().enumerate() {
            if run.kind.contains(kind) {
                for mark in &mut marks[k][offset..offset + n] {
                    *mark = true;
                }
            }
        }
        offset += n;
    }
    marks
}

/// Which code units each kind of the palette formats, by the ranges.
fn marks_of_ranges(ranges: &[MessageEntity], total: usize) -> Vec<Vec<bool>> {
    let mut marks = vec![vec![false; total]; palette().len()];
    for range in ranges {
        let k = palette().iter().position(|kind| kind == &range.kind).unwrap();
        for mark in &mut marks[k][range.offset..range.offset + range.length] {
            *mark = true;
        }
    }
    marks
}

/// The fewest ranges that format the code units as marked, by kind and then
/// by offset.
fn ranges_of_marks(marks: &[Vec<bool>]) -> Vec<MessageEntity> {
    let mut ranges = Vec::new();
    for (k, kind) in palette().iter().enumerate() {
        let mut start = None;
        for p in 0..=marks[k].len() {
            let on = p < marks[k].len() && marks[k][p];
            match (start, on) {
                (None, true) => start = Some(p),
                (Some(s), false) => {
                    ranges.push(MessageEntity::new(kind.clone(), s, p - s));
                    start = None;
                }
                _ => {}
            }
        }
    }
    ranges
}

#[test]
fn entities_are_the_fewest_ranges_of_many_runs() {
    let mut numbers = Numbers::new(7);
    for _ in 0..400 {
        let count = numbers.below(9);
        let mut items = Vec::new();
        for _ in 0..count {
            let mut kind = KindSet::new();
            for candidate in palette() {
                if numbers.below(3) == 0 {
                    kind.insert(candidate);
                }
            }
            items.push(Segment { kind, text: random_text(&mut numbers, 4) });
        }
        let runs = Segments::from(items);
        assert!(runs.encodable());
        assert_eq!(runs.entities(), ranges_of_marks(&marks_of_runs(&runs)));
    }
}

/// Offsets at which a character of the text starts, and the end of the text.
fn boundaries(text: &str) -> Vec<usize> {
    let mut at = vec![0];
    let mut offset = 0;
    for c in text.chars() {
        offset += c.len_utf16();
        at.push(offset);
    }
    at
}

fn random_range(numbers: &mut Numbers, text: &str) -> MessageEntity {
    let at = boundaries(text);
    let a = at[numbers.below(at.len())];
    let b = at[numbers.below(at.len())];
    let (start, end) = if a <= b { (a, b) } else { (b, a) };
    MessageEntity::new(palette()[numbers.below(palette().len())].clone(), start, end - start)
}

fn nests_or_is_apart(a: &MessageEntity, b: &MessageEntity) -> bool {
    let (a0, a1) = (a.offset, a.offset + a.length);
    let (b0, b1) = (b.offset, b.offset + b.length);
    a1 <= b0 || b1 <= a0 || (a0 <= b0 && b1 <= a1) || (b0 <= a0 && a1 <= b1)
}

#[test]
fn build_keeps_the_text_of_many_messages() {
    let mut numbers = Numbers::new(11);
    for _ in 0..400 {
        let text = random_text(&mut numbers, 12);
        let count = numbers.below(7);
        let ranges: Vec<MessageEntity> =
            (0..count).map(|_| random_range(&mut numbers, &text)).collect();
        assert!(Segments::can_build(&text, &ranges));
        let runs = Segments::build(&text, &ranges);
        assert_eq!(runs.text(), text);
        for i in 0..runs.len() {
            assert!(!runs.get(i).text.is_empty());
        }
    }
}

#[test]
fn round_trip_keeps_the_kinds_of_many_messages() {
    let mut numbers = Numbers::new(13);
    let mut tried = 0;
    while tried < 400 {
        let text = random_text(&mut numbers, 12);
        let count = numbers.below(7);
        let mut ranges: Vec<MessageEntity> = Vec::new();
        for _ in 0..count {
            let range = random_range(&mut numbers, &text);
            if ranges
                .iter()
                .all(|other| other.kind == range.kind || nests_or_is_apart(other, &range))
            {
                ranges.push(range);
            }
        }
        tried += 1;
        let runs = Segments::build(&text, &ranges);
        let wanted = marks_of_ranges(&ranges, units(&text));
        assert_eq!(marks_of_runs(&runs), wanted);
        assert_eq!(runs.entities(), ranges_of_marks(&wanted));
    }
}

#[test]
fn build_cut_anywhere_keeps_the_number_of_code_units() {
    let mut numbers = Numbers::new(17);
    for _ in 0..200 {
        let text = random_text(&mut numbers, 8);
        let total = units(&text);
        let count = numbers.below(5);
        let mut ranges = Vec::new();
        for _ in 0..count {
            let a = numbers.below(total + 1);
            let b = numbers.below(total + 1);
            let (start, end) = if a <= b { (a, b) } else { (b, a) };
            ranges.push(MessageEntity::new(FormatKind::Bold, start, end - start));
        }
        let runs = Segments::build(&text, &ranges);
        assert_eq!(units(&runs.text()), total);
    }
}

fn nobody(id: u64) -> User {
    User {
        id,
        is_bot: false,
        first_name: String::new(),
        last_name: None,
        username: None,
        language_code: None,
        is_premium: false,
        added_to_attachment_menu: false,
    }
}

fn number(id: i32) -> MessageMeta {
    MessageMeta { chat_id: 0, message_id: id, sender: nobody(0) }
}

/// The ledger, kept as two plain lists from the least to the most recently
/// used.
struct Lists {
    forward: Vec<(i32, i32)>,
    reverse: Vec<(i32, i32)>,
    capacity: usize,
}

impl Lists {
    fn take(list: &mut Vec<(i32, i32)>, key: i32) -> Option<i32> {
        let at = list.iter().position(|e| e.0 == key)?;
        Some(list.remove(at).1)
    }

    fn touch(list: &mut Vec<(i32, i32)>, key: i32) -> Option<i32> {
        let value = Self::take(list, key)?;
        list.push((key, value));
        Some(value)
    }

    fn put(list: &mut Vec<(i32, i32)>, key: i32, value: i32, capacity: usize) {
        Self::take(list, key);
        list.push((key, value));
        if list.len() > capacity {
            list.remove(0);
        }
    }

    fn forget(&mut self, key: i32) {
        if let Some(value) = Self::take(&mut self.forward, key) {
            Self::take(&mut self.reverse, value);
        }
    }

    fn book(&mut self, a: i32, b: i32) {
        self.forget(a);
        if let Some(asked) = Self::take(&mut self.reverse, b) {
            Self::take(&mut self.forward, asked);
        }
        if !self.forward.is_empty() && self.forward.len() >= self.capacity {
            let oldest = self.forward.remove(0);
            Self::take(&mut self.reverse, oldest.1);
        }
        Self::put(&mut self.forward, a, b, self.capacity);
        Self::put(&mut self.reverse, b, a, self.capacity);
    }
}

#[test]
fn the_ledger_does_what_two_lists_do() {
    for capacity in 0..5 {
        let mut numbers = Numbers::new(19 + capacity as u64);
        let mut ledger = ReplyBooking::with_capacity(capacity);
        let mut lists = Lists { forward: Vec::new(), reverse: Vec::new(), capacity };
        for _ in 0..2000 {
            let a = numbers.below(7) as i32;
            let b = 100 + numbers.below(7) as i32;
            match numbers.below(4) {
                0 => {
                    ledger.book(number(a), number(b));
                    lists.book(a, b);
                }
                1 => {
                    let got = ledger.forward_lookup(&number(a)).map(|m| m.message_id);
                    assert_eq!(got, Lists::touch(&mut lists.forward, a));
                }
                2 => {
                    let got = ledger.reverse_lookup(&number(b)).map(|m| m.message_id);
                    assert_eq!(got, Lists::touch(&mut lists.reverse, b));
                }
                _ => {
                    ledger.forget(&number(a));
                    lists.forget(a);
                }
            }
            // the two maps are mirror images of each other
            assert_eq!(lists.forward.len(), lists.reverse.len());
            for (k, v) in &lists.forward {
                assert!(lists.reverse.contains(&(*v, *k)));
            }
        }
        // at the end both hold what the lists hold
        for a in 0..7 {
            let got = ledger.forward_lookup(&number(a)).map(|m| m.message_id);
            assert_eq!(got, Lists::touch(&mut lists.forward, a));
        }
        for b in 100..107 {
            let got = ledger.reverse_lookup(&number(b)).map(|m| m.message_id);
            assert_eq!(got, Lists::touch(&mut lists.reverse, b));
        }
    }
}
