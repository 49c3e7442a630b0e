use vstd::prelude::*;

verus! {

/// The regular expression that defines a word: a maximal run of letters and
/// apostrophes between word boundaries.
pub const WORD_PATTERN: &'static str = r"\b[\p{L}']+\b";

#[verifier::external_type_specification]
#[verifier::external_body]
pub struct ExRegex(regex::Regex);

/// The words of `text`, in order of appearance, as matched by `WORD_PATTERN`.
pub uninterp spec fn words_of(text: Seq<char>) -> Seq<Seq<char>>;

/// The text that `bytes` encodes as UTF-8, or `None` where they are not valid UTF-8.
pub uninterp spec fn utf8_decode(bytes: Seq<u8>) -> Option<Seq<char>>;

/// The words that one file contributes: none where it could not be read
/// (`None`) or is not valid UTF-8.
pub open spec fn file_words(file: Option<Seq<u8>>) -> Seq<Seq<char>> {
    match file {
        Some(bytes) => match utf8_decode(bytes) {
            Some(t) => words_of(t),
            None => Seq::empty(),
        },
        None => Seq::empty(),
    }
}

/// Splits text into words with the compiled word pattern.
pub struct Tokenizer {
    re: regex::Regex,
}

/// Relies on regex::Regex::new: `WORD_PATTERN` is a valid pattern, so it
/// compiles.
#[verifier::external_body]
fn compile_word_pattern() -> regex::Regex {
    regex::Regex::new(WORD_PATTERN).expect("the word pattern compiles")
}

impl Tokenizer {
    /// A tokenizer for `WORD_PATTERN`, compiled once and shared read-only by
    /// every worker.
    pub fn new() -> Tokenizer {
        Tokenizer { re: compile_word_pattern() }
    }

    /// Relies on regex::Regex::find_iter: the successive non-overlapping
    /// matches of the pattern, which a `Tokenizer` always holds compiled from
    /// `WORD_PATTERN`.
    #[verifier::external_body]
    fn words(&self, text: &str) -> (r: Vec<String>)
        ensures
            r.deep_view() == words_of(text@),
            text@.len() == 0 ==> r@.len() == 0,
    {
        self.re.find_iter(text).map(|m| m.as_str().to_string()).collect()
    }

    /// The words of one file's contents; `None` stands for a file that could
    /// not be read.
    pub fn file_words(&self, file: &Option<Vec<u8>>) -> (r: Vec<String>)
        ensures
            r.deep_view() == file_words(file.deep_view()),
    {
        match file {
            Some(bytes) => {
                assert(bytes.deep_view() =~= bytes@);
                match decode_utf8(bytes.as_slice()) {
                    Some(t) => self.words(t),
                    None => {
                        let r: Vec<String> = Vec::new();
                        assert(r.deep_view() =~= Seq::empty());
                        r
                    },
                }
            },
            None => {
                let r: Vec<String> = Vec::new();
                assert(r.deep_view() =~= Seq::empty());
                r
            },
        }
    }
}

/// Relies on std::str::from_utf8: `Ok` with the decoded text exactly when the
/// bytes are valid UTF-8.
#[verifier::external_body]
fn decode_utf8(bytes: &[u8]) -> (r: Option<&str>)
    ensures
        match r {
            Some(t) => utf8_decode(bytes@) == Some(t@),
            None => utf8_decode(bytes@) is None,
        },
{
    std::str::from_utf8(bytes).ok()
}

} // verus!
