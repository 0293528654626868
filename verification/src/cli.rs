//! Command-line decisions: argument parsing for the training tool and the
//! experiments tool, and CSV record lines.

use vstd::prelude::*;
use vstd::utf8::{
    decode_utf8, encode_utf8, encode_utf8_valid_utf8, is_char_boundary_iff_not_is_continuation_byte,
    valid_utf8, valid_utf8_split,
};
use vstd::string::{StringExecFns, StringSliceAdditionalSpecFns};
use crate::model::format::utf8_string;

verus! {

// -- strings ---------------------------------------------------------------------------

/// Whether two strings hold the same characters.
pub fn same_text(a: &str, b: &str) -> (r: bool)
    ensures
        r == (a@ == b@),
{
    let x = a.as_bytes();
    let y = b.as_bytes();
    proof {
        vstd::utf8::encode_utf8_decode_utf8(a@);
        vstd::utf8::encode_utf8_decode_utf8(b@);
    }
    if x.len() != y.len() {
        return false;
    }
    let mut i: usize = 0;
    while i < x.len()
        invariant
            i <= x@.len(),
            x@.len() == y@.len(),
            x@ == encode_utf8(a@),
            y@ == encode_utf8(b@),
            forall|j: int| 0 <= j < i ==> x@[j] == y@[j],
        decreases x@.len() - i,
    {
        if x[i] != y[i] {
            return false;
        }
        i = i + 1;
    }
    assert(x@ =~= y@);
    true
}

/// The byte pieces of `b` between commas (`,` is byte 0x2C), in order; there
/// is always at least one piece.
pub open spec fn comma_pieces(b: Seq<u8>) -> Seq<Seq<u8>>
    decreases b.len(),
{
    if b.len() == 0 {
        seq![Seq::empty()]
    } else {
        let rest = comma_pieces(b.drop_last());
        if b.last() == 0x2Cu8 {
            rest.push(Seq::empty())
        } else {
            rest.update(rest.len() - 1, rest.last().push(b.last()))
        }
    }
}

/// The text between commas, piece by piece.
pub open spec fn comma_split(s: Seq<char>) -> Seq<Seq<char>> {
    comma_pieces(encode_utf8(s)).map_values(|p: Seq<u8>| decode_utf8(p))
}

proof fn lemma_comma_pieces_len(b: Seq<u8>)
    ensures
        comma_pieces(b).len() >= 1,
    decreases b.len(),
{
    if b.len() > 0 {
        lemma_comma_pieces_len(b.drop_last());
    }
}

/// The bytes between two commas (or the ends) of valid UTF-8 are valid UTF-8.
proof fn lemma_piece_valid(bytes: Seq<u8>, a: int, b: int)
    requires
        valid_utf8(bytes),
        0 <= a <= b <= bytes.len(),
        a == 0 || bytes[a - 1] == 0x2Cu8,
        b == bytes.len() || bytes[b] == 0x2Cu8,
    ensures
        valid_utf8(bytes.subrange(a, b)),
{
    let len = bytes.len() as int;
    let t = bytes.subrange(a, len);
    if a == 0 {
        assert(t =~= bytes);
    } else {
        is_char_boundary_iff_not_is_continuation_byte(bytes, a - 1);
        valid_utf8_split(bytes, a - 1);
        let u = bytes.subrange(a - 1, len);
        assert(u[0] == 0x2Cu8);
        assert(vstd::utf8::pop_first_scalar(u) =~= t);
    }
    assert(valid_utf8(t));
    if b == len {
        assert(t.subrange(0, b - a) =~= t);
    } else {
        is_char_boundary_iff_not_is_continuation_byte(t, b - a);
        valid_utf8_split(t, b - a);
    }
    assert(t.subrange(0, b - a) =~= bytes.subrange(a, b));
}

/// Splits on commas, keeping empty pieces (`"a,,b"` gives `a`, ``, `b`;
/// `""` gives one empty piece).
pub fn split_commas(s: &str) -> (r: Vec<String>)
    ensures
        r@.len() == comma_split(s@).len(),
        forall|i: int| 0 <= i < r@.len() ==> (#[trigger] r@[i])@ == comma_split(s@)[i],
{
    let bytes = s.as_bytes();
    let ghost bs = bytes@;
    proof {
        encode_utf8_valid_utf8(s@);
    }
    let mut out: Vec<String> = Vec::new();
    let mut start: usize = 0;
    let mut i: usize = 0;
    while i < bytes.len()
        invariant
            bs == bytes@,
            bs == encode_utf8(s@),
            valid_utf8(bs),
            start <= i <= bs.len(),
            start == 0 || bs[start - 1] == 0x2Cu8,
            out@.len() + 1 == comma_pieces(bs.subrange(0, i as int)).len(),
            forall|j: int| 0 <= j < out@.len() ==> (#[trigger] out@[j])@ == decode_utf8(comma_pieces(bs.subrange(0, i as int))[j]),
            comma_pieces(bs.subrange(0, i as int)).last() == bs.subrange(start as int, i as int),
        decreases bs.len() - i,
    {
        let ghost prefix = bs.subrange(0, i + 1);
        assert(prefix.drop_last() =~= bs.subrange(0, i as int));
        proof {
            lemma_comma_pieces_len(bs.subrange(0, i as int));
        }
        if bytes[i] == 0x2Cu8 {
            proof {
                lemma_piece_valid(bs, start as int, i as int);
            }
            let piece = utf8_string(&bytes[start..i]);
            assert(bytes@.subrange(start as int, i as int) == bs.subrange(start as int, i as int));
            match piece {
                Some(p) => out.push(p),
                None => {},
            }
            start = i + 1;
            proof {
                assert(bs.subrange(start as int, i + 1) =~= Seq::<u8>::empty());
            }
        } else {
            proof {
                assert(bs.subrange(start as int, i + 1) =~= bs.subrange(start as int, i as int).push(bs[i as int]));
            }
        }
        i = i + 1;
    }
    proof {
        lemma_piece_valid(bs, start as int, bs.len() as int);
        assert(bs.subrange(0, bs.len() as int) =~= bs);
    }
    let last = utf8_string(&bytes[start..bytes.len()]);
    match last {
        Some(p) => out.push(p),
        None => {},
    }
    proof {
        lemma_comma_pieces_len(bs);
        assert forall|j: int| 0 <= j < out@.len() implies (#[trigger] out@[j])@ == comma_split(s@)[j] by {
        }
    }
    out
}

// -- integers ----------------------------------------------------------------------------

/// Whether every byte is an ASCII digit.
pub open spec fn all_digits(b: Seq<u8>) -> bool {
    forall|i: int| 0 <= i < b.len() ==> 0x30u8 <= #[trigger] b[i] <= 0x39u8
}

/// The decimal value of ASCII digits.
pub open spec fn decimal_value(b: Seq<u8>) -> nat
    decreases b.len(),
{
    if b.len() == 0 {
        0
    } else {
        decimal_value(b.drop_last()) * 10 + (b.last() - 0x30u8) as nat
    }
}

/// The digits of an unsigned integer literal: an optional leading `+`, then
/// at least one digit; `None` for any other text.
pub open spec fn unsigned_digits(b: Seq<u8>) -> Option<Seq<u8>> {
    let d = if b.len() > 0 && b[0] == 0x2Bu8 {
        b.drop_first()
    } else {
        b
    };
    if d.len() > 0 && all_digits(d) {
        Some(d)
    } else {
        None
    }
}

/// What `str::parse::<u64>` gives: the value when the text is an unsigned
/// literal within `max`.
pub open spec fn parsed_unsigned(s: Seq<char>, max: nat) -> Option<nat> {
    match unsigned_digits(encode_utf8(s)) {
        Some(d) => if decimal_value(d) <= max {
            Some(decimal_value(d))
        } else {
            None
        },
        None => None,
    }
}

proof fn lemma_decimal_monotone(b: Seq<u8>, i: int)
    requires
        all_digits(b),
        0 <= i <= b.len(),
    ensures
        decimal_value(b.subrange(0, i)) <= decimal_value(b),
    decreases b.len() - i,
{
    if i < b.len() {
        lemma_decimal_monotone(b, i + 1);
        let p = b.subrange(0, i + 1);
        assert(p.drop_last() =~= b.subrange(0, i));
        assert(decimal_value(p) >= decimal_value(b.subrange(0, i))) by (nonlinear_arith)
            requires
                decimal_value(p) == decimal_value(b.subrange(0, i)) * 10 + (p.last() - 0x30u8) as nat,
        ;
    } else {
        assert(b.subrange(0, i) =~= b);
    }
}

/// Parses an unsigned decimal integer up to `u64::MAX`.
pub fn parse_u64(s: &str) -> (r: Option<u64>)
    ensures
        r == (match parsed_unsigned(s@, u64::MAX as nat) {
            Some(v) => Some(v as u64),
            None => None::<u64>,
        }),
{
    let b = s.as_bytes();
    let ghost bs = b@;
    let start: usize = if b.len() > 0 && b[0] == 0x2Bu8 {
        1
    } else {
        0
    };
    let ghost d = bs.subrange(start as int, bs.len() as int);
    assert(bs == encode_utf8(s@));
    proof {
        if start == 1 {
            assert(d =~= bs.drop_first());
        } else {
            assert(d =~= bs);
        }
    }
    if start == b.len() {
        return None;
    }
    let mut acc: u64 = 0;
    let mut i: usize = start;
    while i < b.len()
        invariant
            bs == b@,
            bs == encode_utf8(s@),
            start <= i <= bs.len(),
            d == bs.subrange(start as int, bs.len() as int),
            d == (if bs.len() > 0 && bs[0] == 0x2Bu8 {
                bs.drop_first()
            } else {
                bs
            }),
            d.len() > 0,
            all_digits(bs.subrange(start as int, i as int)),
            acc == decimal_value(bs.subrange(start as int, i as int)),
        decreases bs.len() - i,
    {
        let c = b[i];
        let ghost next = bs.subrange(start as int, i + 1);
        assert(next.drop_last() =~= bs.subrange(start as int, i as int));
        if c < 0x30u8 || c > 0x39u8 {
            proof {
                assert(d[i - start] == c);
                assert(!all_digits(d));
                assert(unsigned_digits(bs) is None);
            }
            return None;
        }
        let digit = (c - 0x30u8) as u64;
        if acc > (u64::MAX - digit) / 10 {
            proof {
                assert(all_digits(next));
                assert(decimal_value(next) == acc * 10 + digit);
                assert(acc * 10 + digit > u64::MAX) by (nonlinear_arith)
                    requires
                        acc > (u64::MAX - digit) / 10,
                        digit <= 9,
                ;
                assert(forall|k: int| 0 <= k < d.len() ==> #[trigger] d[k] == bs[start + k]);
                if all_digits(d) {
                    assert(next =~= d.subrange(0, (i + 1 - start) as int));
                    lemma_decimal_monotone(d, (i + 1 - start) as int);
                    assert(unsigned_digits(bs) == Some(d));
                }
            }
            return None;
        }
        proof {
            assert(acc * 10 + digit <= u64::MAX) by (nonlinear_arith)
                requires
                    acc <= (u64::MAX - digit) / 10,
                    digit <= 9,
            ;
        }
        acc = acc * 10 + digit;
        i = i + 1;
    }
    assert(bs.subrange(start as int, i as int) =~= d);
    Some(acc)
}

/// Parses an unsigned decimal integer up to `usize::MAX`.
pub fn parse_usize(s: &str) -> (r: Option<usize>)
    ensures
        r == (match parsed_unsigned(s@, usize::MAX as nat) {
            Some(v) => Some(v as usize),
            None => None::<usize>,
        }),
{
    match parse_u64(s) {
        Some(v) => {
            if v > usize::MAX as u64 {
                None
            } else {
                Some(v as usize)
            }
        },
        None => None,
    }
}

// -- the training tool -----------------------------------------------------------------

/// The task of the training tool.
#[derive(Debug, Clone, Copy, PartialEq, Eq, Structural)]
pub enum Task {
    Regression,
    Binary,
}

/// `regression` or `binary`.
pub fn parse_task(s: &str) -> (r: Option<Task>)
    ensures
        r == (if s@ == "regression"@ {
            Some(Task::Regression)
        } else if s@ == "binary"@ {
            Some(Task::Binary)
        } else {
            None::<Task>
        }),
{
    if same_text(s, "regression") {
        Some(Task::Regression)
    } else if same_text(s, "binary") {
        Some(Task::Binary)
    } else {
        None
    }
}

/// Why the training tool's arguments were refused.
#[derive(Debug, Clone, PartialEq, Eq)]
pub enum CliError {
    /// The first argument is not a known subcommand.
    UnknownSubcommand(String),
    /// An option has no value after it.
    MissingValue(String),
    /// The task is neither `regression` nor `binary`.
    UnknownTask(String),
    /// The option needs an integer.
    NotAnInteger(String),
    /// The option needs a floating-point number.
    NotANumber(String),
    /// An unknown option.
    UnknownOption(String),
    /// A required option is missing (its name).
    MissingOption(String),
    /// `--mode` is neither `generate` nor `impute`.
    UnknownMode(String),
    /// `--features` names no feature.
    EmptyFeatures,
    /// `--count`, `--steps` and `--imputation-samples` must be positive.
    NonPositiveCounts,
    /// Help was asked for.
    HelpRequested,
}

/// A refusal, with its text as characters.
pub enum CliFailure {
    UnknownSubcommand(Seq<char>),
    MissingValue(Seq<char>),
    UnknownTask(Seq<char>),
    NotAnInteger(Seq<char>),
    NotANumber(Seq<char>),
    UnknownOption(Seq<char>),
    MissingOption(Seq<char>),
    UnknownMode(Seq<char>),
    EmptyFeatures,
    NonPositiveCounts,
    HelpRequested,
}

impl View for CliError {
    type V = CliFailure;

    open spec fn view(&self) -> CliFailure {
        match self {
            CliError::UnknownSubcommand(s) => CliFailure::UnknownSubcommand(s@),
            CliError::MissingValue(s) => CliFailure::MissingValue(s@),
            CliError::UnknownTask(s) => CliFailure::UnknownTask(s@),
            CliError::NotAnInteger(s) => CliFailure::NotAnInteger(s@),
            CliError::NotANumber(s) => CliFailure::NotANumber(s@),
            CliError::UnknownOption(s) => CliFailure::UnknownOption(s@),
            CliError::MissingOption(s) => CliFailure::MissingOption(s@),
            CliError::UnknownMode(s) => CliFailure::UnknownMode(s@),
            CliError::EmptyFeatures => CliFailure::EmptyFeatures,
            CliError::NonPositiveCounts => CliFailure::NonPositiveCounts,
            CliError::HelpRequested => CliFailure::HelpRequested,
        }
    }
}

/// The text of each argument.
pub open spec fn texts(argv: Seq<String>) -> Seq<Seq<char>> {
    argv.map_values(|s: String| s@)
}

/// The training tool's options. The two `f64` options are given by the
/// position of their text in the argument list (already known to parse).
#[derive(Debug, Clone, PartialEq, Eq)]
pub struct TrainArgs {
    pub train: String,
    pub test: String,
    pub features: Vec<String>,
    pub target: String,
    pub task: Task,
    pub output: String,
    pub n_estimators: usize,
    pub learning_rate_at: Option<usize>,
    pub max_depth: usize,
    pub min_samples_leaf: usize,
    pub min_split_gain_at: Option<usize>,
    pub max_bins: usize,
    pub seed: u64,
}

/// The training tool's options, with texts as characters.
pub struct TrainOptions {
    pub train: Seq<char>,
    pub test: Seq<char>,
    pub features: Seq<Seq<char>>,
    pub target: Seq<char>,
    pub task: Task,
    pub output: Seq<char>,
    pub n_estimators: usize,
    pub learning_rate_at: Option<usize>,
    pub max_depth: usize,
    pub min_samples_leaf: usize,
    pub min_split_gain_at: Option<usize>,
    pub max_bins: usize,
    pub seed: u64,
}

impl View for TrainArgs {
    type V = TrainOptions;

    open spec fn view(&self) -> TrainOptions {
        TrainOptions {
            train: self.train@,
            test: self.test@,
            features: texts(self.features@),
            target: self.target@,
            task: self.task,
            output: self.output@,
            n_estimators: self.n_estimators,
            learning_rate_at: self.learning_rate_at,
            max_depth: self.max_depth,
            min_samples_leaf: self.min_samples_leaf,
            min_split_gain_at: self.min_split_gain_at,
            max_bins: self.max_bins,
            seed: self.seed,
        }
    }
}

/// The defaults: 100 trees, depth 6, leaves of at least 5 rows, 255 bins,
/// seed 42, regression, no text options.
pub open spec fn default_train_options() -> TrainOptions {
    TrainOptions {
        train: Seq::empty(),
        test: Seq::empty(),
        features: Seq::empty(),
        target: Seq::empty(),
        task: Task::Regression,
        output: Seq::empty(),
        n_estimators: 100,
        learning_rate_at: None,
        max_depth: 6,
        min_samples_leaf: 5,
        min_split_gain_at: None,
        max_bins: 255,
        seed: 42,
    }
}

/// An integer option's value, or the refusal naming the option.
pub open spec fn usize_option(key: Seq<char>, val: Seq<char>) -> Result<usize, CliFailure> {
    match parsed_unsigned(val, usize::MAX as nat) {
        Some(v) => Ok(v as usize),
        None => Err(CliFailure::NotAnInteger(key)),
    }
}

/// One `key value` pair applied to the options; `vi` is the value's
/// position and `val_is_float` whether it parses as an `f64`.
pub open spec fn train_step(o: TrainOptions, key: Seq<char>, val: Seq<char>, vi: usize, val_is_float: bool) -> Result<TrainOptions, CliFailure> {
    if key == "--train"@ {
        Ok(TrainOptions { train: val, ..o })
    } else if key == "--test"@ {
        Ok(TrainOptions { test: val, ..o })
    } else if key == "--features"@ {
        Ok(TrainOptions { features: comma_split(val), ..o })
    } else if key == "--target"@ {
        Ok(TrainOptions { target: val, ..o })
    } else if key == "--task"@ {
        if val == "regression"@ {
            Ok(TrainOptions { task: Task::Regression, ..o })
        } else if val == "binary"@ {
            Ok(TrainOptions { task: Task::Binary, ..o })
        } else {
            Err(CliFailure::UnknownTask(val))
        }
    } else if key == "--output"@ {
        Ok(TrainOptions { output: val, ..o })
    } else if key == "--n-estimators"@ {
        match usize_option(key, val) {
            Ok(v) => Ok(TrainOptions { n_estimators: v, ..o }),
            Err(e) => Err(e),
        }
    } else if key == "--learning-rate"@ {
        if val_is_float {
            Ok(TrainOptions { learning_rate_at: Some(vi), ..o })
        } else {
            Err(CliFailure::NotANumber(key))
        }
    } else if key == "--max-depth"@ {
        match usize_option(key, val) {
            Ok(v) => Ok(TrainOptions { max_depth: v, ..o }),
            Err(e) => Err(e),
        }
    } else if key == "--min-samples-leaf"@ {
        match usize_option(key, val) {
            Ok(v) => Ok(TrainOptions { min_samples_leaf: v, ..o }),
            Err(e) => Err(e),
        }
    } else if key == "--min-split-gain"@ {
        if val_is_float {
            Ok(TrainOptions { min_split_gain_at: Some(vi), ..o })
        } else {
            Err(CliFailure::NotANumber(key))
        }
    } else if key == "--max-bins"@ {
        match usize_option(key, val) {
            Ok(v) => Ok(TrainOptions { max_bins: v, ..o }),
            Err(e) => Err(e),
        }
    } else if key == "--seed"@ {
        match parsed_unsigned(val, u64::MAX as nat) {
            Some(v) => Ok(TrainOptions { seed: v as u64, ..o }),
            None => Err(CliFailure::NotAnInteger(key)),
        }
    } else {
        Err(CliFailure::UnknownOption(key))
    }
}

/// The `key value` pairs from position `i` on, applied in order to `o`;
/// the first refusal stops.
pub open spec fn train_options_from(argv: Seq<Seq<char>>, float_ok: Seq<bool>, i: int, o: TrainOptions) -> Result<TrainOptions, CliFailure>
    decreases argv.len() - i,
{
    if i < 0 || i >= argv.len() {
        Ok(o)
    } else if i + 1 >= argv.len() {
        Err(CliFailure::MissingValue(argv[i]))
    } else {
        match train_step(o, argv[i], argv[i + 1], (i + 1) as usize, float_ok[i + 1]) {
            Ok(o2) => train_options_from(argv, float_ok, i + 2, o2),
            Err(e) => Err(e),
        }
    }
}

/// The required options, checked in the order train, test, features,
/// target, output.
pub open spec fn required_train_options(o: TrainOptions) -> Result<TrainOptions, CliFailure> {
    if o.train.len() == 0 {
        Err(CliFailure::MissingOption("--train"@))
    } else if o.test.len() == 0 {
        Err(CliFailure::MissingOption("--test"@))
    } else if o.features.len() == 0 {
        Err(CliFailure::MissingOption("--features"@))
    } else if o.target.len() == 0 {
        Err(CliFailure::MissingOption("--target"@))
    } else if o.output.len() == 0 {
        Err(CliFailure::MissingOption("--output"@))
    } else {
        Ok(o)
    }
}

/// What the training tool's command line gives: the subcommand must be
/// `train`, then the options are read from position 1, then the required
/// ones are checked.
pub open spec fn train_args_outcome(argv: Seq<Seq<char>>, float_ok: Seq<bool>) -> Result<TrainOptions, CliFailure> {
    if argv.len() == 0 {
        Err(CliFailure::UnknownSubcommand(Seq::empty()))
    } else if argv[0] != "train"@ {
        Err(CliFailure::UnknownSubcommand(argv[0]))
    } else {
        match train_options_from(argv, float_ok, 1, default_train_options()) {
            Ok(o) => required_train_options(o),
            Err(e) => Err(e),
        }
    }
}

/// The outcome of a parse, with texts as characters.
pub open spec fn train_result_view(r: Result<TrainArgs, CliError>) -> Result<TrainOptions, CliFailure> {
    match r {
        Ok(a) => Ok(a@),
        Err(e) => Err(e@),
    }
}

/// The text of an option name.
fn option_name(s: &str) -> (r: String)
    ensures
        r@ == s@,
{
    String::from_str(s)
}

/// Parses `train --train <csv> --test <csv> --features f0,f1 --target t
/// --task regression|binary --output <csv> [options]`. Options come in
/// `--key value` pairs and are read in order, the first problem being
/// reported; `float_ok[i]` tells whether `argv[i]` parses as an `f64`.
/// Then the required options are checked, in the order train, test,
/// features, target, output.
pub fn parse_train_args(argv: &Vec<String>, float_ok: &Vec<bool>) -> (r: Result<TrainArgs, CliError>)
    requires
        float_ok@.len() == argv@.len(),
    ensures
        train_result_view(r) == train_args_outcome(texts(argv@), float_ok@),
{
    let ghost av = texts(argv@);
    let ghost fo = float_ok@;
    if argv.len() == 0 {
        let e = CliError::UnknownSubcommand(String::new());
        assert(e@ == CliFailure::UnknownSubcommand(Seq::empty()));
        return Err(e);
    }
    assert(av[0] == argv@[0]@);
    if !same_text(argv[0].as_str(), "train") {
        return Err(CliError::UnknownSubcommand(argv[0].clone()));
    }
    let mut args = TrainArgs {
        train: String::new(),
        test: String::new(),
        features: Vec::new(),
        target: String::new(),
        task: Task::Regression,
        output: String::new(),
        n_estimators: 100,
        learning_rate_at: None,
        max_depth: 6,
        min_samples_leaf: 5,
        min_split_gain_at: None,
        max_bins: 255,
        seed: 42,
    };
    assert(args@ == default_train_options()) by {
        assert(texts(args.features@) =~= Seq::<Seq<char>>::empty());
    }
    let mut i: usize = 1;
    while i < argv.len()
        invariant
            float_ok@.len() == argv@.len(),
            av == texts(argv@),
            fo == float_ok@,
            1 <= i,
            av.len() > 0 && av[0] == "train"@,
            train_options_from(av, fo, i as int, args@) == train_options_from(av, fo, 1, default_train_options()),
        decreases argv@.len() - i,
    {
        let key = argv[i].as_str();
        assert(av[i as int] == key@);
        if i + 1 >= argv.len() {
            return Err(CliError::MissingValue(argv[i].clone()));
        }
        let vi = i + 1;
        let val = argv[vi].as_str();
        assert(av[vi as int] == val@);
        let ghost before = args@;
        let ghost step = train_step(before, key@, val@, vi, fo[vi as int]);
        if same_text(key, "--train") {
            args.train = argv[vi].clone();
        } else if same_text(key, "--test") {
            args.test = argv[vi].clone();
        } else if same_text(key, "--features") {
            args.features = split_commas(val);
            assert(texts(args.features@) =~= comma_split(val@));
        } else if same_text(key, "--target") {
            args.target = argv[vi].clone();
        } else if same_text(key, "--task") {
            match parse_task(val) {
                Some(t) => args.task = t,
                None => return Err(CliError::UnknownTask(argv[vi].clone())),
            }
        } else if same_text(key, "--output") {
            args.output = argv[vi].clone();
        } else if same_text(key, "--n-estimators") {
            match parse_usize(val) {
                Some(v) => args.n_estimators = v,
                None => return Err(CliError::NotAnInteger(argv[i].clone())),
            }
        } else if same_text(key, "--learning-rate") {
            if !float_ok[vi] {
                return Err(CliError::NotANumber(argv[i].clone()));
            }
            args.learning_rate_at = Some(vi);
        } else if same_text(key, "--max-depth") {
            match parse_usize(val) {
                Some(v) => args.max_depth = v,
                None => return Err(CliError::NotAnInteger(argv[i].clone())),
            }
        } else if same_text(key, "--min-samples-leaf") {
            match parse_usize(val) {
                Some(v) => args.min_samples_leaf = v,
                None => return Err(CliError::NotAnInteger(argv[i].clone())),
            }
        } else if same_text(key, "--min-split-gain") {
            if !float_ok[vi] {
                return Err(CliError::NotANumber(argv[i].clone()));
            }
            args.min_split_gain_at = Some(vi);
        } else if same_text(key, "--max-bins") {
            match parse_usize(val) {
                Some(v) => args.max_bins = v,
                None => return Err(CliError::NotAnInteger(argv[i].clone())),
            }
        } else if same_text(key, "--seed") {
            match parse_u64(val) {
                Some(v) => args.seed = v,
                None => return Err(CliError::NotAnInteger(argv[i].clone())),
            }
        } else {
            return Err(CliError::UnknownOption(argv[i].clone()));
        }
        assert(step == Ok::<TrainOptions, CliFailure>(args@));
        i = i + 2;
    }
    assert(train_options_from(av, fo, i as int, args@) == Ok::<TrainOptions, CliFailure>(args@));
    if args.train.as_str().is_empty() {
        return Err(CliError::MissingOption(option_name("--train")));
    }
    if args.test.as_str().is_empty() {
        return Err(CliError::MissingOption(option_name("--test")));
    }
    if args.features.len() == 0 {
        return Err(CliError::MissingOption(option_name("--features")));
    }
    if args.target.as_str().is_empty() {
        return Err(CliError::MissingOption(option_name("--target")));
    }
    if args.output.as_str().is_empty() {
        return Err(CliError::MissingOption(option_name("--output")));
    }
    Ok(args)
}

// -- what the training options hold ------------------------------------------------

/// The value given with the last `key` among the `key value` pairs that start
/// at positions `i`, `i + 2`, ..., if any.
pub open spec fn last_option(argv: Seq<Seq<char>>, key: Seq<char>, i: int) -> Option<Seq<char>>
    decreases argv.len() - i,
{
    if i < 0 || i + 1 >= argv.len() {
        None
    } else {
        match last_option(argv, key, i + 2) {
            Some(v) => Some(v),
            None => if argv[i] == key {
                Some(argv[i + 1])
            } else {
                None
            },
        }
    }
}

/// The number an option was last given (0 for a text that is no number),
/// or `default` without one.
pub open spec fn number_or(given: Option<Seq<char>>, max: nat, default: nat) -> nat {
    match given {
        Some(v) => match parsed_unsigned(v, max) {
            Some(n) => n,
            None => 0,
        },
        None => default,
    }
}

/// The text an option was last given, or `default` without one.
pub open spec fn text_or(given: Option<Seq<char>>, default: Seq<char>) -> Seq<char> {
    match given {
        Some(v) => v,
        None => default,
    }
}

/// The position of the value given with the last `key` among the pairs that
/// start at positions `i`, `i + 2`, ..., if any.
pub open spec fn last_position(argv: Seq<Seq<char>>, key: Seq<char>, i: int) -> Option<usize>
    decreases argv.len() - i,
{
    if i < 0 || i + 1 >= argv.len() {
        None
    } else {
        match last_position(argv, key, i + 2) {
            Some(p) => Some(p),
            None => if argv[i] == key {
                Some((i + 1) as usize)
            } else {
                None
            },
        }
    }
}

/// The task named by a `--task` value (`binary`, else regression), or
/// regression without one.
pub open spec fn task_or_regression(given: Option<Seq<char>>) -> Task {
    match given {
        Some(v) => if v == "binary"@ {
            Task::Binary
        } else {
            Task::Regression
        },
        None => Task::Regression,
    }
}

/// One accepted pair sets the option it names, from its value, and keeps
/// every other option.
proof fn lemma_train_step_fields(o: TrainOptions, key: Seq<char>, val: Seq<char>, vi: usize, f: bool)
    ensures
        train_step(o, key, val, vi, f) matches Ok(o1) ==> {
            &&& o1.max_depth as nat == (if key == "--max-depth"@ { number_or(Some(val), usize::MAX as nat, 0) } else { o.max_depth as nat })
            &&& o1.n_estimators as nat == (if key == "--n-estimators"@ { number_or(Some(val), usize::MAX as nat, 0) } else { o.n_estimators as nat })
            &&& o1.min_samples_leaf as nat == (if key == "--min-samples-leaf"@ { number_or(Some(val), usize::MAX as nat, 0) } else { o.min_samples_leaf as nat })
            &&& o1.max_bins as nat == (if key == "--max-bins"@ { number_or(Some(val), usize::MAX as nat, 0) } else { o.max_bins as nat })
            &&& o1.seed as nat == (if key == "--seed"@ { number_or(Some(val), u64::MAX as nat, 0) } else { o.seed as nat })
            &&& o1.train == (if key == "--train"@ { val } else { o.train })
            &&& o1.test == (if key == "--test"@ { val } else { o.test })
            &&& o1.target == (if key == "--target"@ { val } else { o.target })
            &&& o1.output == (if key == "--output"@ { val } else { o.output })
            &&& o1.features == (if key == "--features"@ { comma_split(val) } else { o.features })
            &&& o1.task == (if key == "--task"@ { task_or_regression(Some(val)) } else { o.task })
            &&& o1.learning_rate_at == (if key == "--learning-rate"@ { Some(vi) } else { o.learning_rate_at })
            &&& o1.min_split_gain_at == (if key == "--min-split-gain"@ { Some(vi) } else { o.min_split_gain_at })
        },
{
    reveal_strlit("--train");
    reveal_strlit("--test");
    reveal_strlit("--features");
    reveal_strlit("--target");
    reveal_strlit("--task");
    reveal_strlit("--output");
    reveal_strlit("--n-estimators");
    reveal_strlit("--learning-rate");
    reveal_strlit("--max-depth");
    reveal_strlit("--min-samples-leaf");
    reveal_strlit("--min-split-gain");
    reveal_strlit("--max-bins");
    reveal_strlit("--seed");
    reveal_strlit("regression");
    reveal_strlit("binary");
    assert("regression"@.len() == 10);
    assert("binary"@.len() == 6);
    assert("--train"@.len() == 7);
    assert("--test"@.len() == 6);
    assert("--features"@.len() == 10);
    assert("--target"@.len() == 8);
    assert("--task"@.len() == 6);
    assert("--output"@.len() == 8);
    assert("--n-estimators"@.len() == 14);
    assert("--learning-rate"@.len() == 15);
    assert("--max-depth"@.len() == 11);
    assert("--min-samples-leaf"@.len() == 18);
    assert("--min-split-gain"@.len() == 16);
    assert("--max-bins"@.len() == 10);
    assert("--seed"@.len() == 6);
    assert("--test"@[3] != "--task"@[3]);
    assert("--test"@[2] != "--seed"@[2]);
    assert("--features"@[2] != "--max-bins"@[2]);
    assert("--target"@[2] != "--output"@[2]);
    assert("--task"@[2] != "--seed"@[2]);
}

/// Reading the pairs from position `i` on leaves each option at the value
/// it was last given there, or where it stood before.
#[verifier::spinoff_prover]
#[verifier::rlimit(60)]
proof fn lemma_train_options_fields(argv: Seq<Seq<char>>, float_ok: Seq<bool>, i: int, o: TrainOptions)
    requires
        i >= 0,
        float_ok.len() == argv.len(),
    ensures
        train_options_from(argv, float_ok, i, o) matches Ok(o2) ==> {
            &&& o2.max_depth as nat == number_or(last_option(argv, "--max-depth"@, i), usize::MAX as nat, o.max_depth as nat)
            &&& o2.n_estimators as nat == number_or(last_option(argv, "--n-estimators"@, i), usize::MAX as nat, o.n_estimators as nat)
            &&& o2.min_samples_leaf as nat == number_or(last_option(argv, "--min-samples-leaf"@, i), usize::MAX as nat, o.min_samples_leaf as nat)
            &&& o2.max_bins as nat == number_or(last_option(argv, "--max-bins"@, i), usize::MAX as nat, o.max_bins as nat)
            &&& o2.seed as nat == number_or(last_option(argv, "--seed"@, i), u64::MAX as nat, o.seed as nat)
            &&& o2.train == text_or(last_option(argv, "--train"@, i), o.train)
            &&& o2.test == text_or(last_option(argv, "--test"@, i), o.test)
            &&& o2.target == text_or(last_option(argv, "--target"@, i), o.target)
            &&& o2.output == text_or(last_option(argv, "--output"@, i), o.output)
            &&& o2.features == (match last_option(argv, "--features"@, i) {
                Some(v) => comma_split(v),
                None => o.features,
            })
            &&& o2.task == (match last_option(argv, "--task"@, i) {
                Some(v) => task_or_regression(Some(v)),
                None => o.task,
            })
            &&& o2.learning_rate_at == (match last_position(argv, "--learning-rate"@, i) {
                Some(p) => Some(p),
                None => o.learning_rate_at,
            })
            &&& o2.min_split_gain_at == (match last_position(argv, "--min-split-gain"@, i) {
                Some(p) => Some(p),
                None => o.min_split_gain_at,
            })
        },
    decreases argv.len() - i,
{
    if i + 1 < argv.len() {
        let step = train_step(o, argv[i], argv[i + 1], (i + 1) as usize, float_ok[i + 1]);
        lemma_train_step_fields(o, argv[i], argv[i + 1], (i + 1) as usize, float_ok[i + 1]);
        if let Ok(o1) = step {
            lemma_train_options_fields(argv, float_ok, i + 2, o1);
        }
    }
}

/// What an accepted training command line sets: each integer option
/// (`--max-depth`, `--n-estimators`, `--min-samples-leaf`, `--max-bins`,
/// `--seed`) holds the number given with its last occurrence, or its default
/// (6, 100, 5, 255, 42) when it is not given; each path and the target hold
/// the text given with their last occurrence; the feature list is the last
/// `--features` value split at commas; the task is the last `--task` value
/// (regression when none is given); the two `f64` options point at the value
/// of their last occurrence (none when not given).
pub proof fn law_train_options_take_last_values(argv: Seq<Seq<char>>, float_ok: Seq<bool>)
    requires
        float_ok.len() == argv.len(),
    ensures
        train_args_outcome(argv, float_ok) matches Ok(o) ==> {
            &&& o.max_depth as nat == number_or(last_option(argv, "--max-depth"@, 1), usize::MAX as nat, 6)
            &&& o.n_estimators as nat == number_or(last_option(argv, "--n-estimators"@, 1), usize::MAX as nat, 100)
            &&& o.min_samples_leaf as nat == number_or(last_option(argv, "--min-samples-leaf"@, 1), usize::MAX as nat, 5)
            &&& o.max_bins as nat == number_or(last_option(argv, "--max-bins"@, 1), usize::MAX as nat, 255)
            &&& o.seed as nat == number_or(last_option(argv, "--seed"@, 1), u64::MAX as nat, 42)
            &&& last_option(argv, "--train"@, 1) == Some(o.train)
            &&& last_option(argv, "--test"@, 1) == Some(o.test)
            &&& last_option(argv, "--target"@, 1) == Some(o.target)
            &&& last_option(argv, "--output"@, 1) == Some(o.output)
            &&& last_option(argv, "--features"@, 1) matches Some(v) && o.features == comma_split(v)
            &&& o.task == task_or_regression(last_option(argv, "--task"@, 1))
            &&& o.learning_rate_at == last_position(argv, "--learning-rate"@, 1)
            &&& o.min_split_gain_at == last_position(argv, "--min-split-gain"@, 1)
        },
{
    if argv.len() > 0 && argv[0] == "train"@ {
        lemma_train_options_fields(argv, float_ok, 1, default_train_options());
    }
}

// -- the experiments tool ----------------------------------------------------------

/// What the experiments tool does.
#[derive(Debug, Clone, Copy, PartialEq, Eq, Structural)]
pub enum Mode {
    Generate,
    Impute,
}

/// `generate` or `impute`.
pub fn parse_mode(s: &str) -> (r: Option<Mode>)
    ensures
        r == (if s@ == "generate"@ {
            Some(Mode::Generate)
        } else if s@ == "impute"@ {
            Some(Mode::Impute)
        } else {
            None::<Mode>
        }),
{
    if same_text(s, "generate") {
        Some(Mode::Generate)
    } else if same_text(s, "impute") {
        Some(Mode::Impute)
    } else {
        None
    }
}

/// The value after a flag: `argv[i]`, or a missing-value error naming `flag`.
pub fn next_value(argv: &Vec<String>, i: usize, flag: &String) -> (r: Result<String, CliError>)
    ensures
        i < argv@.len() ==> (r matches Ok(v) && v@ == argv@[i as int]@),
        i >= argv@.len() ==> (r matches Err(CliError::MissingValue(f)) && f@ == flag@),
{
    if i < argv.len() {
        Ok(argv[i].clone())
    } else {
        Err(CliError::MissingValue(flag.clone()))
    }
}

/// The experiments tool's options.
#[derive(Debug, Clone, PartialEq, Eq)]
pub struct ExperimentArgs {
    pub mode: Mode,
    pub train: String,
    pub test: Option<String>,
    pub features: Vec<String>,
    pub target: String,
    pub output: String,
    pub count: usize,
    pub feature_index: Option<usize>,
    pub seed: u64,
    pub steps: usize,
    pub imputation_samples: usize,
}

/// The experiments tool's options, with texts as characters.
pub struct ExperimentOptions {
    pub mode: Mode,
    pub train: Seq<char>,
    pub test: Option<Seq<char>>,
    pub features: Seq<Seq<char>>,
    pub target: Seq<char>,
    pub output: Seq<char>,
    pub count: usize,
    pub feature_index: Option<usize>,
    pub seed: u64,
    pub steps: usize,
    pub imputation_samples: usize,
}

/// An optional text as characters.
pub open spec fn opt_text(o: Option<String>) -> Option<Seq<char>> {
    match o {
        Some(s) => Some(s@),
        None => None,
    }
}

impl View for ExperimentArgs {
    type V = ExperimentOptions;

    open spec fn view(&self) -> ExperimentOptions {
        ExperimentOptions {
            mode: self.mode,
            train: self.train@,
            test: opt_text(self.test),
            features: texts(self.features@),
            target: self.target@,
            output: self.output@,
            count: self.count,
            feature_index: self.feature_index,
            seed: self.seed,
            steps: self.steps,
            imputation_samples: self.imputation_samples,
        }
    }
}

/// The experiments tool's options while reading: the required ones may
/// still be absent.
pub struct ExperimentDraft {
    pub mode: Option<Mode>,
    pub train: Option<Seq<char>>,
    pub test: Option<Seq<char>>,
    pub features: Option<Seq<Seq<char>>>,
    pub target: Seq<char>,
    pub output: Option<Seq<char>>,
    pub count: usize,
    pub feature_index: Option<usize>,
    pub seed: u64,
    pub steps: usize,
    pub imputation_samples: usize,
}

/// Nothing read yet: target `target`, 256 samples, seed 42, 20 steps, 4
/// imputation samples.
pub open spec fn default_experiment_draft() -> ExperimentDraft {
    ExperimentDraft {
        mode: None,
        train: None,
        test: None,
        features: None,
        target: "target"@,
        output: None,
        count: 256,
        feature_index: None,
        seed: 42,
        steps: 20,
        imputation_samples: 4,
    }
}

/// The non-empty pieces between commas.
pub open spec fn feature_names_of(s: Seq<char>) -> Seq<Seq<char>> {
    comma_split(s).filter(|p: Seq<char>| p.len() > 0)
}

/// The flags that take a value.
pub open spec fn known_experiment_flag(key: Seq<char>) -> bool {
    key == "--mode"@ || key == "--train"@ || key == "--test"@ || key == "--features"@ || key == "--target"@
        || key == "--output"@ || key == "--count"@ || key == "--feature-index"@ || key == "--seed"@
        || key == "--steps"@ || key == "--imputation-samples"@
}

/// One known flag and its value applied to the draft.
pub open spec fn experiment_step(d: ExperimentDraft, key: Seq<char>, val: Seq<char>) -> Result<ExperimentDraft, CliFailure> {
    if key == "--mode"@ {
        if val == "generate"@ {
            Ok(ExperimentDraft { mode: Some(Mode::Generate), ..d })
        } else if val == "impute"@ {
            Ok(ExperimentDraft { mode: Some(Mode::Impute), ..d })
        } else {
            Err(CliFailure::UnknownMode(val))
        }
    } else if key == "--train"@ {
        Ok(ExperimentDraft { train: Some(val), ..d })
    } else if key == "--test"@ {
        Ok(ExperimentDraft { test: Some(val), ..d })
    } else if key == "--features"@ {
        if feature_names_of(val).len() == 0 {
            Err(CliFailure::EmptyFeatures)
        } else {
            Ok(ExperimentDraft { features: Some(feature_names_of(val)), ..d })
        }
    } else if key == "--target"@ {
        Ok(ExperimentDraft { target: val, ..d })
    } else if key == "--output"@ {
        Ok(ExperimentDraft { output: Some(val), ..d })
    } else if key == "--count"@ {
        match usize_option(key, val) {
            Ok(v) => Ok(ExperimentDraft { count: v, ..d }),
            Err(e) => Err(e),
        }
    } else if key == "--feature-index"@ {
        match usize_option(key, val) {
            Ok(v) => Ok(ExperimentDraft { feature_index: Some(v), ..d }),
            Err(e) => Err(e),
        }
    } else if key == "--seed"@ {
        match parsed_unsigned(val, u64::MAX as nat) {
            Some(v) => Ok(ExperimentDraft { seed: v as u64, ..d }),
            None => Err(CliFailure::NotAnInteger(key)),
        }
    } else if key == "--steps"@ {
        match usize_option(key, val) {
            Ok(v) => Ok(ExperimentDraft { steps: v, ..d }),
            Err(e) => Err(e),
        }
    } else {
        match usize_option(key, val) {
            Ok(v) => Ok(ExperimentDraft { imputation_samples: v, ..d }),
            Err(e) => Err(e),
        }
    }
}

/// The flags from position `i` on, in order: `--help`/`-h` asks for help,
/// an unknown flag or one without a value is refused, the first refusal
/// stops.
pub open spec fn experiment_draft_from(argv: Seq<Seq<char>>, i: int, d: ExperimentDraft) -> Result<ExperimentDraft, CliFailure>
    decreases argv.len() - i,
{
    if i < 0 || i >= argv.len() {
        Ok(d)
    } else if argv[i] == "--help"@ || argv[i] == "-h"@ {
        Err(CliFailure::HelpRequested)
    } else if !known_experiment_flag(argv[i]) {
        Err(CliFailure::UnknownOption(argv[i]))
    } else if i + 1 >= argv.len() {
        Err(CliFailure::MissingValue(argv[i]))
    } else {
        match experiment_step(d, argv[i], argv[i + 1]) {
            Ok(d2) => experiment_draft_from(argv, i + 2, d2),
            Err(e) => Err(e),
        }
    }
}

/// The finished options: mode, train, features and output must be given
/// (checked in that order), and count, steps and imputation samples must
/// be positive.
pub open spec fn finish_experiment(d: ExperimentDraft) -> Result<ExperimentOptions, CliFailure> {
    if d.mode is None {
        Err(CliFailure::MissingOption("--mode"@))
    } else if d.train is None {
        Err(CliFailure::MissingOption("--train"@))
    } else if d.features is None {
        Err(CliFailure::MissingOption("--features"@))
    } else if d.output is None {
        Err(CliFailure::MissingOption("--output"@))
    } else if d.count == 0 || d.steps == 0 || d.imputation_samples == 0 {
        Err(CliFailure::NonPositiveCounts)
    } else {
        Ok(
            ExperimentOptions {
                mode: d.mode.unwrap(),
                train: d.train.unwrap(),
                test: d.test,
                features: d.features.unwrap(),
                target: d.target,
                output: d.output.unwrap(),
                count: d.count,
                feature_index: d.feature_index,
                seed: d.seed,
                steps: d.steps,
                imputation_samples: d.imputation_samples,
            },
        )
    }
}

/// What the experiments tool's command line gives.
pub open spec fn experiment_args_outcome(argv: Seq<Seq<char>>) -> Result<ExperimentOptions, CliFailure> {
    match experiment_draft_from(argv, 0, default_experiment_draft()) {
        Ok(d) => finish_experiment(d),
        Err(e) => Err(e),
    }
}

/// The outcome of a parse, with texts as characters.
pub open spec fn experiment_result_view(r: Result<ExperimentArgs, CliError>) -> Result<ExperimentOptions, CliFailure> {
    match r {
        Ok(a) => Ok(a@),
        Err(e) => Err(e@),
    }
}

/// The non-empty pieces between commas.
pub fn feature_list(s: &str) -> (r: Vec<String>)
    ensures
        texts(r@) == feature_names_of(s@),
{
    let all = split_commas(s);
    let ghost pieces = comma_split(s@);
    let mut out: Vec<String> = Vec::new();
    let mut i: usize = 0;
    while i < all.len()
        invariant
            all@.len() == pieces.len(),
            forall|j: int| 0 <= j < all@.len() ==> (#[trigger] all@[j])@ == pieces[j],
            i <= all@.len(),
            texts(out@) == pieces.subrange(0, i as int).filter(|p: Seq<char>| p.len() > 0),
        decreases all@.len() - i,
    {
        let ghost before = out@;
        proof {
            assert(pieces.subrange(0, i + 1).drop_last() =~= pieces.subrange(0, i as int));
            pieces.subrange(0, i as int).lemma_filter_push(pieces[i as int], |p: Seq<char>| p.len() > 0);
        }
        if !all[i].as_str().is_empty() {
            out.push(all[i].clone());
        }
        proof {
            assert(pieces.subrange(0, i as int).push(pieces[i as int]) =~= pieces.subrange(0, i + 1));
            assert(texts(out@) =~= pieces.subrange(0, i + 1).filter(|p: Seq<char>| p.len() > 0)) by {
                if all@[i as int]@.len() > 0 {
                    assert(out@ == before.push(all@[i as int]));
                    assert(texts(out@) =~= texts(before).push(all@[i as int]@));
                } else {
                    assert(out@ == before);
                }
            }
        }
        i = i + 1;
    }
    assert(pieces.subrange(0, i as int) =~= pieces);
    out
}

/// The draft of the experiments options held in the parser's variables.
pub open spec fn draft_of(
    mode: Option<Mode>,
    train: Option<String>,
    test: Option<String>,
    features: Option<Vec<String>>,
    target: String,
    output: Option<String>,
    count: usize,
    feature_index: Option<usize>,
    seed: u64,
    steps: usize,
    imputation_samples: usize,
) -> ExperimentDraft {
    ExperimentDraft {
        mode,
        train: opt_text(train),
        test: opt_text(test),
        features: match features {
            Some(f) => Some(texts(f@)),
            None => None,
        },
        target: target@,
        output: opt_text(output),
        count,
        feature_index,
        seed,
        steps,
        imputation_samples,
    }
}

/// Parses the experiments tool's flags (each followed by its value, read
/// in order; the first problem is reported; `--help`/`-h` stops with a
/// help request), then checks the required mode, train, features and
/// output, and that count, steps and imputation samples are positive.
pub fn parse_experiment_args(argv: &Vec<String>) -> (r: Result<ExperimentArgs, CliError>)
    ensures
        experiment_result_view(r) == experiment_args_outcome(texts(argv@)),
{
    let ghost av = texts(argv@);
    let mut mode: Option<Mode> = None;
    let mut train: Option<String> = None;
    let mut test: Option<String> = None;
    let mut features: Option<Vec<String>> = None;
    let mut target = String::from_str("target");
    let mut output: Option<String> = None;
    let mut count: usize = 256;
    let mut feature_index: Option<usize> = None;
    let mut seed: u64 = 42;
    let mut steps: usize = 20;
    let mut imputation_samples: usize = 4;
    proof {
        reveal_strlit("target");
    }
    let mut i: usize = 0;
    while i < argv.len()
        invariant
            av == texts(argv@),
            experiment_draft_from(
                av,
                i as int,
                draft_of(mode, train, test, features, target, output, count, feature_index, seed, steps, imputation_samples),
            ) == experiment_draft_from(av, 0, default_experiment_draft()),
        decreases argv@.len() - i,
    {
        let flag = &argv[i];
        let key = flag.as_str();
        assert(av[i as int] == key@);
        let ghost before = draft_of(mode, train, test, features, target, output, count, feature_index, seed, steps, imputation_samples);
        if same_text(key, "--help") || same_text(key, "-h") {
            return Err(CliError::HelpRequested);
        }
        let known = same_text(key, "--mode") || same_text(key, "--train") || same_text(key, "--test")
            || same_text(key, "--features") || same_text(key, "--target") || same_text(key, "--output")
            || same_text(key, "--count") || same_text(key, "--feature-index") || same_text(key, "--seed")
            || same_text(key, "--steps") || same_text(key, "--imputation-samples");
        if !known {
            return Err(CliError::UnknownOption(flag.clone()));
        }
        let value = next_value(argv, i + 1, flag)?;
        assert(av[i + 1] == value@);
        let ghost step = experiment_step(before, key@, value@);
        let v = value.as_str();
        if same_text(key, "--mode") {
            match parse_mode(v) {
                Some(m) => mode = Some(m),
                None => return Err(CliError::UnknownMode(value.clone())),
            }
        } else if same_text(key, "--train") {
            train = Some(value);
        } else if same_text(key, "--test") {
            test = Some(value);
        } else if same_text(key, "--features") {
            let names = feature_list(v);
            if names.len() == 0 {
                return Err(CliError::EmptyFeatures);
            }
            features = Some(names);
        } else if same_text(key, "--target") {
            target = value;
        } else if same_text(key, "--output") {
            output = Some(value);
        } else if same_text(key, "--count") {
            match parse_usize(v) {
                Some(n) => count = n,
                None => return Err(CliError::NotAnInteger(flag.clone())),
            }
        } else if same_text(key, "--feature-index") {
            match parse_usize(v) {
                Some(n) => feature_index = Some(n),
                None => return Err(CliError::NotAnInteger(flag.clone())),
            }
        } else if same_text(key, "--seed") {
            match parse_u64(v) {
                Some(n) => seed = n,
                None => return Err(CliError::NotAnInteger(flag.clone())),
            }
        } else if same_text(key, "--steps") {
            match parse_usize(v) {
                Some(n) => steps = n,
                None => return Err(CliError::NotAnInteger(flag.clone())),
            }
        } else {
            match parse_usize(v) {
                Some(n) => imputation_samples = n,
                None => return Err(CliError::NotAnInteger(flag.clone())),
            }
        }
        assert(step == Ok::<ExperimentDraft, CliFailure>(
            draft_of(mode, train, test, features, target, output, count, feature_index, seed, steps, imputation_samples),
        ));
        i = i + 2;
    }
    let ghost last = draft_of(mode, train, test, features, target, output, count, feature_index, seed, steps, imputation_samples);
    assert(experiment_draft_from(av, i as int, last) == Ok::<ExperimentDraft, CliFailure>(last));
    let mode = match mode {
        Some(m) => m,
        None => return Err(CliError::MissingOption(option_name("--mode"))),
    };
    let train = match train {
        Some(t) => t,
        None => return Err(CliError::MissingOption(option_name("--train"))),
    };
    let features = match features {
        Some(f) => f,
        None => return Err(CliError::MissingOption(option_name("--features"))),
    };
    let output = match output {
        Some(o) => o,
        None => return Err(CliError::MissingOption(option_name("--output"))),
    };
    if count == 0 || steps == 0 || imputation_samples == 0 {
        return Err(CliError::NonPositiveCounts);
    }
    Ok(ExperimentArgs {
        mode,
        train,
        test,
        features,
        target,
        output,
        count,
        feature_index,
        seed,
        steps,
        imputation_samples,
    })
}

// -- CSV records -------------------------------------------------------------------------

/// Fields joined by commas.
pub open spec fn joined(fields: Seq<Seq<char>>) -> Seq<char>
    decreases fields.len(),
{
    if fields.len() == 0 {
        Seq::empty()
    } else if fields.len() == 1 {
        fields[0]
    } else {
        joined(fields.drop_last()) + seq![','] + fields.last()
    }
}

/// Appends one CSV record: the fields joined by commas, then a newline.
pub fn write_record(out: &mut String, fields: &Vec<String>)
    ensures
        final(out)@ == old(out)@ + joined(fields@.map_values(|f: String| f@)) + seq!['\n'],
{
    let ghost start = out@;
    let ghost fs = fields@.map_values(|f: String| f@);
    let mut i: usize = 0;
    while i < fields.len()
        invariant
            fs == fields@.map_values(|f: String| f@),
            i <= fields@.len(),
            out@ == start + joined(fs.subrange(0, i as int)),
        decreases fields@.len() - i,
    {
        let ghost before = out@;
        assert(fs.subrange(0, i + 1).drop_last() =~= fs.subrange(0, i as int));
        proof {
            reveal_strlit(",");
        }
        if i > 0 {
            out.append(",");
        }
        out.append(fields[i].as_str());
        proof {
            if i == 0 {
                assert(fs.subrange(0, 1) =~= seq![fs[0]]);
                assert(out@ =~= start + joined(fs.subrange(0, i + 1)));
            } else {
                assert(out@ =~= start + joined(fs.subrange(0, i + 1)));
            }
        }
        i = i + 1;
    }
    assert(fs.subrange(0, i as int) =~= fs);
    proof {
        reveal_strlit("\n");
    }
    out.append("\n");
}

} // verus!
