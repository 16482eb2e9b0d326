//! The item processor: it counts the items it has seen and reports, for each,
//! its length, its number and the moment it was handled.

use crate::error::EngineError;
use vstd::prelude::*;
use vstd::string::*;

verus! {

/// What is known of one processed item.
#[derive(Debug, Clone, PartialEq, Eq)]
pub struct ProcessData {
    /// The length of the item in bytes.
    pub length: usize,
    /// When the item was processed, as an RFC 3339 timestamp.
    pub processed_at: String,
    /// The number of the item, counted from 1.
    pub item_number: usize,
}

/// The outcome of processing one item.
#[derive(Debug, Clone, PartialEq, Eq)]
pub struct ProcessResult {
    /// Whether the processing was successful.
    pub success: bool,
    /// A message describing the result.
    pub message: String,
    /// The data associated with the result, if any.
    pub data: Option<ProcessData>,
}

/// The counters of a processor.
#[derive(Debug, Clone, Copy, PartialEq, Eq, Structural)]
pub struct ProcessorStats {
    /// How many items have been processed.
    pub processed_count: usize,
    /// Whether the processor was asked to be verbose.
    pub verbose: bool,
}

/// Counts the items handed to it.
#[derive(Debug)]
pub struct HomomorphicEncryptionProcessor {
    verbose: bool,
    processed_count: usize,
}

/// The character of one decimal digit.
pub open spec fn digit_char(d: int) -> char {
    if d == 0 {
        '0'
    } else if d == 1 {
        '1'
    } else if d == 2 {
        '2'
    } else if d == 3 {
        '3'
    } else if d == 4 {
        '4'
    } else if d == 5 {
        '5'
    } else if d == 6 {
        '6'
    } else if d == 7 {
        '7'
    } else if d == 8 {
        '8'
    } else {
        '9'
    }
}

/// The decimal numeral of `n`, without leading zeros.
pub open spec fn decimal(n: nat) -> Seq<char>
    decreases n,
{
    if n < 10 {
        seq![digit_char(n as int)]
    } else {
        decimal(n / 10).push(digit_char((n % 10) as int))
    }
}

/// The length in bytes of a text in UTF-8.
pub open spec fn byte_length(text: Seq<char>) -> nat {
    vstd::utf8::encode_utf8(text).len()
}

/// The message that reports item number `n`.
pub open spec fn item_message(n: nat) -> Seq<char> {
    "Successfully processed item #"@ + decimal(n)
}

fn digit_text(d: usize) -> (text: &'static str)
    requires
        d < 10,
    ensures
        text@ == seq![digit_char(d as int)],
{
    proof {
        reveal_strlit("0");
        reveal_strlit("1");
        reveal_strlit("2");
        reveal_strlit("3");
        reveal_strlit("4");
        reveal_strlit("5");
        reveal_strlit("6");
        reveal_strlit("7");
        reveal_strlit("8");
        reveal_strlit("9");
    }
    let text: &'static str = if d == 0 {
        "0"
    } else if d == 1 {
        "1"
    } else if d == 2 {
        "2"
    } else if d == 3 {
        "3"
    } else if d == 4 {
        "4"
    } else if d == 5 {
        "5"
    } else if d == 6 {
        "6"
    } else if d == 7 {
        "7"
    } else if d == 8 {
        "8"
    } else {
        "9"
    };
    assert(text@ =~= seq![digit_char(d as int)]);
    text
}

/// The decimal numeral of `n` as a string.
pub fn decimal_string(n: usize) -> (text: String)
    ensures
        text@ == decimal(n as nat),
    decreases n,
{
    if n < 10 {
        String::from_str(digit_text(n))
    } else {
        let mut text: String = decimal_string(n / 10);
        text.append(digit_text(n % 10));
        assert(text@ =~= decimal(n as nat));
        text
    }
}

/// The shape of an RFC 3339 timestamp in UTC: a date and a time of at least
/// 19 characters, then the offset `+00:00`.
pub open spec fn is_utc_stamp(text: Seq<char>) -> bool {
    text.len() >= 25 && text.subrange(text.len() - 6, text.len() as int) == "+00:00"@
}

/// The current time in UTC as an RFC 3339 timestamp: the system clock read
/// by `std::time::SystemTime::now`, turned into a `chrono::DateTime<Utc>` by
/// chrono's `From<SystemTime>`, which also takes a clock before 1970, and
/// written by `chrono::DateTime::to_rfc3339`. The moment depends on the
/// clock; claimed is only what the writer gives for every moment: a year of
/// four digits or more, the rest of the date and the time to the second in
/// fifteen characters, a fraction of the second or none, and the offset of
/// UTC, `+00:00`. The conversion takes every moment within the years that
/// chrono holds, some 262,000 either side of 1970.
#[verifier::external_body]
fn current_timestamp() -> (stamp: String)
    ensures
        is_utc_stamp(stamp@),
{
    chrono::DateTime::<chrono::Utc>::from(std::time::SystemTime::now()).to_rfc3339()
}

impl View for HomomorphicEncryptionProcessor {
    type V = ProcessorStats;

    closed spec fn view(&self) -> ProcessorStats {
        ProcessorStats { processed_count: self.processed_count, verbose: self.verbose }
    }
}

impl HomomorphicEncryptionProcessor {
    /// A processor that has seen no item yet.
    pub fn new(verbose: bool) -> (p: Self)
        ensures
            p@ == (ProcessorStats { processed_count: 0, verbose }),
    {
        Self { verbose, processed_count: 0 }
    }

    /// Processes one item at a given moment: counts it and reports its
    /// length in bytes, its number and the moment.
    pub fn process_at(&mut self, data: &str, processed_at: String) -> (r: Result<
        ProcessResult,
        EngineError,
    >)
        requires
            old(self)@.processed_count < usize::MAX,
        ensures
            final(self)@.verbose == old(self)@.verbose,
            final(self)@.processed_count == old(self)@.processed_count + 1,
            r matches Ok(result) && result.success && result.message@ == item_message(
                final(self)@.processed_count as nat,
            ) && result.data == Some(
                ProcessData {
                    length: byte_length(data@) as usize,
                    processed_at,
                    item_number: final(self)@.processed_count,
                },
            ),
    {
        self.processed_count = self.processed_count + 1;
        let mut message: String = String::from_str("Successfully processed item #");
        let number: String = decimal_string(self.processed_count);
        message.append(number.as_str());
        Ok(
            ProcessResult {
                success: true,
                message,
                data: Some(
                    ProcessData {
                        length: data.len(),
                        processed_at,
                        item_number: self.processed_count,
                    },
                ),
            },
        )
    }

    /// Processes one item now. The report is that of [`Self::process_at`]
    /// for the moment the clock gives, written as a timestamp in UTC.
    pub fn process(&mut self, data: &str) -> (r: Result<ProcessResult, EngineError>)
        requires
            old(self)@.processed_count < usize::MAX,
        ensures
            final(self)@.verbose == old(self)@.verbose,
            final(self)@.processed_count == old(self)@.processed_count + 1,
            r matches Ok(result) && result.success && result.message@ == item_message(
                final(self)@.processed_count as nat,
            ) && (result.data matches Some(d) && d.length == byte_length(data@) as usize
                && d.item_number == final(self)@.processed_count && is_utc_stamp(
                d.processed_at@,
            )),
    {
        let stamp: String = current_timestamp();
        self.process_at(data, stamp)
    }

    /// The counters of the processor.
    pub fn get_stats(&self) -> (stats: ProcessorStats)
        ensures
            stats == self@,
    {
        ProcessorStats { processed_count: self.processed_count, verbose: self.verbose }
    }
}

/// Processes the input, if there is one, with a fresh processor, and returns
/// the report to show; without input there is nothing to report.
pub fn run(verbose: bool, input: Option<String>, output: Option<String>) -> (r: Result<
    Option<ProcessResult>,
    EngineError,
>)
    ensures
        r is Ok,
        r matches Ok(report) ==> (report is Some <==> input is Some),
        r matches Ok(Some(result)) ==> result.success && result.message@ == item_message(1) && (
        result.data matches Some(d) && d.length == byte_length(input->Some_0@) as usize
            && d.item_number == 1 && is_utc_stamp(d.processed_at@)),
{
    let mut processor = HomomorphicEncryptionProcessor::new(verbose);
    match input {
        Some(input_data) => {
            match processor.process(input_data.as_str()) {
                Ok(result) => Ok(Some(result)),
                Err(e) => Err(e),
            }
        },
        None => Ok(None),
    }
}

} // verus!
