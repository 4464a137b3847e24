//! The commands that the arguments of a call stand for.
use std::path::PathBuf;

use vstd::prelude::*;

use crate::csv_plot::DEFAULT_IMAGE_SIZE;
use crate::text::{holds_text, parse_number, same_text, split_at, trim};

verus! {

use crate::text::{first_place, number_error_text, number_value, split, texts, texts_push, trimmed};

/// A path of the file system, as it stands.
#[verifier::external_type_specification]
#[verifier::external_body]
pub struct ExPathBuf(std::path::PathBuf);

/// `PathBuf::clone` gives the same path.
pub assume_specification[ <std::path::PathBuf as Clone>::clone ](path: &std::path::PathBuf) -> (copy: std::path::PathBuf)
    ensures
        copy == *path,
;

/// An argument: its text, if it is UTF-8; the path that it stands for; and the message, if the
/// text is no floating-point number.
#[derive(Debug, Clone, PartialEq)]
pub struct Arg {
    pub text: Option<String>,
    pub path: PathBuf,
    pub number_error: Option<String>,
}

/// What an [`Arg`] says.
pub struct ArgModel {
    pub text: Option<Seq<char>>,
    pub path: PathBuf,
    pub number_error: Option<Seq<char>>,
}

/// What a text that may be missing says.
pub open spec fn optional(text: Option<String>) -> Option<Seq<char>> {
    match text {
        Some(text) => Some(text@),
        None => None,
    }
}

impl View for Arg {
    type V = ArgModel;

    open spec fn view(&self) -> ArgModel {
        ArgModel {
            text: optional(self.text),
            path: self.path,
            number_error: optional(self.number_error),
        }
    }
}

/// What a list of arguments says.
pub open spec fn arg_models(args: Seq<Arg>) -> Seq<ArgModel> {
    Seq::new(args.len(), |i: int| args[i]@)
}

/// The state to show below a plot: the column of its masks, and the file of its definitions.
#[derive(Debug, Clone, PartialEq)]
pub struct StateOverlayCommand {
    pub column: String,
    pub definitions: PathBuf,
}

/// What to plot.
#[derive(Debug, Clone, PartialEq)]
pub enum CsvPlotCommand {
    XY { x_column: String, y_columns: Vec<String>, state: Option<StateOverlayCommand> },
    LabeledSeries {
        label_column: String,
        timestamp_column: String,
        value_column: String,
        state: Option<StateOverlayCommand>,
    },
}

/// What to do. A time scale is kept as the text of the number; a width and a height are there
/// where the call gives either.
#[derive(Debug, Clone, PartialEq)]
pub enum Command {
    KeyDiff { left: PathBuf, right: PathBuf, keys: Vec<String> },
    KeyDiffExtract {
        left: PathBuf,
        right: PathBuf,
        diff: PathBuf,
        output_left: PathBuf,
        output_right: PathBuf,
    },
    PseudoDiff {
        input: PathBuf,
        time_column: String,
        value_column: String,
        time_scale: String,
        output: Option<PathBuf>,
    },
    AnomalyDetect { input: PathBuf, x_column: String, y_columns: Vec<String> },
    LabelSplit { input: PathBuf, label_column: String, output_dir: Option<PathBuf> },
    Plot { input: PathBuf, mode: CsvPlotCommand },
    PlotImage { input: PathBuf, mode: CsvPlotCommand, output: PathBuf },
    PlotImageSized {
        input: PathBuf,
        mode: CsvPlotCommand,
        output: PathBuf,
        width: u32,
        height: u32,
    },
    PowerSpectrum { input: PathBuf, x_column: String, y_column: String },
}

/// What a [`StateOverlayCommand`] says.
pub struct StateModel {
    pub column: Seq<char>,
    pub definitions: PathBuf,
}

/// What a [`CsvPlotCommand`] says.
pub enum PlotModel {
    XY { x_column: Seq<char>, y_columns: Seq<Seq<char>>, state: Option<StateModel> },
    LabeledSeries {
        label_column: Seq<char>,
        timestamp_column: Seq<char>,
        value_column: Seq<char>,
        state: Option<StateModel>,
    },
}

/// What a [`Command`] says.
pub enum CommandModel {
    KeyDiff { left: PathBuf, right: PathBuf, keys: Seq<Seq<char>> },
    KeyDiffExtract {
        left: PathBuf,
        right: PathBuf,
        diff: PathBuf,
        output_left: PathBuf,
        output_right: PathBuf,
    },
    PseudoDiff {
        input: PathBuf,
        time_column: Seq<char>,
        value_column: Seq<char>,
        time_scale: Seq<char>,
        output: Option<PathBuf>,
    },
    AnomalyDetect { input: PathBuf, x_column: Seq<char>, y_columns: Seq<Seq<char>> },
    LabelSplit { input: PathBuf, label_column: Seq<char>, output_dir: Option<PathBuf> },
    Plot { input: PathBuf, mode: PlotModel },
    PlotImage { input: PathBuf, mode: PlotModel, output: PathBuf },
    PlotImageSized {
        input: PathBuf,
        mode: PlotModel,
        output: PathBuf,
        width: u32,
        height: u32,
    },
    PowerSpectrum { input: PathBuf, x_column: Seq<char>, y_column: Seq<char> },
}

/// What a state overlay that may be missing says.
pub open spec fn state_model(state: Option<StateOverlayCommand>) -> Option<StateModel> {
    match state {
        Some(state) => Some(
            StateModel { column: state.column@, definitions: state.definitions },
        ),
        None => None,
    }
}

impl View for CsvPlotCommand {
    type V = PlotModel;

    open spec fn view(&self) -> PlotModel {
        match *self {
            CsvPlotCommand::XY { x_column, y_columns, state } => PlotModel::XY {
                x_column: x_column@,
                y_columns: texts(y_columns@),
                state: state_model(state),
            },
            CsvPlotCommand::LabeledSeries {
                label_column,
                timestamp_column,
                value_column,
                state,
            } => PlotModel::LabeledSeries {
                label_column: label_column@,
                timestamp_column: timestamp_column@,
                value_column: value_column@,
                state: state_model(state),
            },
        }
    }
}

impl View for Command {
    type V = CommandModel;

    open spec fn view(&self) -> CommandModel {
        match *self {
            Command::KeyDiff { left, right, keys } => CommandModel::KeyDiff {
                left,
                right,
                keys: texts(keys@),
            },
            Command::KeyDiffExtract { left, right, diff, output_left, output_right } =>
                CommandModel::KeyDiffExtract { left, right, diff, output_left, output_right },
            Command::PseudoDiff { input, time_column, value_column, time_scale, output } =>
                CommandModel::PseudoDiff {
                input,
                time_column: time_column@,
                value_column: value_column@,
                time_scale: time_scale@,
                output,
            },
            Command::AnomalyDetect { input, x_column, y_columns } => CommandModel::AnomalyDetect {
                input,
                x_column: x_column@,
                y_columns: texts(y_columns@),
            },
            Command::LabelSplit { input, label_column, output_dir } => CommandModel::LabelSplit {
                input,
                label_column: label_column@,
                output_dir,
            },
            Command::Plot { input, mode } => CommandModel::Plot { input, mode: mode@ },
            Command::PlotImage { input, mode, output } => CommandModel::PlotImage {
                input,
                mode: mode@,
                output,
            },
            Command::PlotImageSized { input, mode, output, width, height } =>
                CommandModel::PlotImageSized { input, mode: mode@, output, width, height },
            Command::PowerSpectrum { input, x_column, y_column } => CommandModel::PowerSpectrum {
                input,
                x_column: x_column@,
                y_column: y_column@,
            },
        }
    }
}

/// What a command that may not be readable says.
pub open spec fn command_result(result: Result<Command, String>) -> Result<
    CommandModel,
    Seq<char>,
> {
    match result {
        Ok(command) => Ok(command@),
        Err(message) => Err(message@),
    }
}

/// What the value of an option is.
#[derive(Debug, Clone, Copy, PartialEq, Eq, Structural)]
pub enum ValueKind {
    Text,
    Path,
    Number,
    Size,
}

/// An option and what its value is.
pub struct OptionSpec {
    pub name: &'static str,
    pub kind: ValueKind,
}

/// The names of the options.
pub open spec fn option_names(options: Seq<OptionSpec>) -> Seq<Seq<char>> {
    Seq::new(options.len(), |i: int| options[i].name@)
}

/// The kinds of the options.
pub open spec fn option_kinds(options: Seq<OptionSpec>) -> Seq<ValueKind> {
    Seq::new(options.len(), |i: int| options[i].kind)
}

/// An option that a call gives: its place among the options, and the place of its value among
/// the arguments.
pub struct Given {
    pub option: usize,
    pub value: usize,
}

/// Why an argument cannot be the value of an option, if it cannot.
pub open spec fn value_error(value: ArgModel, name: Seq<char>, kind: ValueKind) -> Option<
    Seq<char>,
> {
    match kind {
        ValueKind::Path => None,
        ValueKind::Text => if value.text is None {
            Some("missing value after "@ + name)
        } else {
            None
        },
        ValueKind::Number => if value.text is None {
            Some("missing value after "@ + name)
        } else {
            value.number_error
        },
        ValueKind::Size => match value.text {
            None => Some("missing value after "@ + name),
            Some(text) => match number_value(text, 10, u32::MAX as int) {
                Err(error) => Some(number_error_text(error)),
                Ok(_) => None,
            },
        },
    }
}

/// The options that the arguments from `from` on give, or why they give none.
pub open spec fn given_from(
    args: Seq<ArgModel>,
    from: int,
    command: Seq<char>,
    names: Seq<Seq<char>>,
    kinds: Seq<ValueKind>,
) -> Result<Seq<Given>, Seq<char>>
    decreases args.len() - from,
{
    if from >= args.len() {
        Ok(Seq::empty())
    } else {
        match args[from].text {
            None => Err("arguments must be valid UTF-8"@),
            Some(name) => {
                let option = first_place(names, name);
                if !names.contains(name) {
                    Err("unexpected argument for "@ + command + ": "@ + name)
                } else if from + 1 >= args.len() {
                    Err("missing value after "@ + name)
                } else {
                    match value_error(args[from + 1], name, kinds[option]) {
                        Some(message) => Err(message),
                        None => match given_from(args, from + 2, command, names, kinds) {
                            Err(message) => Err(message),
                            Ok(others) => Ok(
                                seq![
                                    Given { option: option as usize, value: (from + 1) as usize },
                                ] + others,
                            ),
                        },
                    }
                }
            },
        }
    }
}

/// Every value is an argument that fits its option.
pub open spec fn given_fits(
    given: Seq<Given>,
    args: Seq<ArgModel>,
    kinds: Seq<ValueKind>,
) -> bool {
    forall|i: int|
        0 <= i < given.len() ==> {
            &&& (#[trigger] given[i]).option < kinds.len()
            &&& given[i].value < args.len()
            &&& kinds[given[i].option as int] != ValueKind::Path
                ==> args[given[i].value as int].text is Some
            &&& kinds[given[i].option as int] == ValueKind::Size ==> number_value(
                args[given[i].value as int].text->0,
                10,
                u32::MAX as int,
            ) is Ok
        }
}

fn find_option(options: &Vec<OptionSpec>, name: &str) -> (place: Option<usize>)
    ensures
        match place {
            Some(place) => place == first_place(option_names(options@), name@) && place
                < options@.len() && option_names(options@).contains(name@),
            None => !option_names(options@).contains(name@),
        },
{
    let ghost names = option_names(options@);
    for i in 0..options.len()
        invariant
            names == option_names(options@),
            forall|k: int| 0 <= k < i ==> #[trigger] names[k] != name@,
    {
        if same_text(options[i].name, name) {
            proof {
                assert(names[i as int] == name@);
                crate::text::first_place_is_first(names, name@);
            }
            return Some(i);
        }
    }
    None
}

fn missing_value(name: &str) -> (message: String)
    ensures
        message@ == "missing value after "@ + name@,
{
    let mut message = "missing value after ".to_owned();
    message.append(name);
    message
}

fn check_value(value: &Arg, name: &str, kind: ValueKind) -> (result: Result<(), String>)
    ensures
        match result {
            Ok(()) => value_error(value@, name@, kind) is None,
            Err(message) => value_error(value@, name@, kind) == Some(message@),
        },
{
    if kind == ValueKind::Path {
        return Ok(());
    }
    let text = match &value.text {
        Some(text) => text,
        None => {
            return Err(missing_value(name));
        },
    };
    if kind == ValueKind::Number {
        return match &value.number_error {
            Some(message) => Err(message.clone()),
            None => Ok(()),
        };
    }
    if kind == ValueKind::Size {
        return match parse_number(text.as_str(), 10, u32::MAX as u64) {
            Ok(_) => Ok(()),
            Err(message) => Err(message),
        };
    }
    Ok(())
}

/// The result of putting given options before others.
pub open spec fn with_given(
    before: Seq<Given>,
    others: Result<Seq<Given>, Seq<char>>,
) -> Result<Seq<Given>, Seq<char>> {
    match others {
        Err(message) => Err(message),
        Ok(others) => Ok(before + others),
    }
}

/// The options that the arguments give.
fn scan_options(args: &Vec<Arg>, start: usize, command: &str, options: &Vec<OptionSpec>) -> (result: Result<
    Vec<Given>,
    String,
>)
    requires
        start <= args@.len(),
    ensures
        match result {
            Ok(given) => {
                &&& given_from(
                    arg_models(args@),
                    start as int,
                    command@,
                    option_names(options@),
                    option_kinds(options@),
                ) == Ok::<Seq<Given>, Seq<char>>(given@)
                &&& given_fits(given@, arg_models(args@), option_kinds(options@))
            },
            Err(message) => given_from(
                arg_models(args@),
                start as int,
                command@,
                option_names(options@),
                option_kinds(options@),
            ) == Err::<Seq<Given>, Seq<char>>(message@),
        },
{
    let ghost models = arg_models(args@);
    let ghost names = option_names(options@);
    let ghost kinds = option_kinds(options@);
    let ghost wanted = given_from(models, start as int, command@, names, kinds);
    let mut given: Vec<Given> = Vec::new();
    let mut from: usize = start;
    proof {
        if let Ok(others) = wanted {
            assert(Seq::<Given>::empty() + others == others);
        }
    }
    while from < args.len()
        invariant
            models == arg_models(args@),
            names == option_names(options@),
            kinds == option_kinds(options@),
            wanted == given_from(models, start as int, command@, names, kinds),
            from <= args@.len(),
            wanted == with_given(
                given@,
                given_from(models, from as int, command@, names, kinds),
            ),
            given_fits(given@, models, kinds),
        decreases args.len() - from,
    {
        assert(models[from as int] == args@[from as int]@);
        let name = match &args[from].text {
            None => {
                return Err("arguments must be valid UTF-8".to_owned());
            },
            Some(name) => name.as_str(),
        };
        let option = match find_option(options, name) {
            None => {
                let mut message = "unexpected argument for ".to_owned();
                message.append(command);
                message.append(": ");
                message.append(name);
                return Err(message);
            },
            Some(option) => option,
        };
        if from + 1 >= args.len() {
            return Err(missing_value(name));
        }
        assert(models[from + 1] == args@[from + 1]@);
        match check_value(&args[from + 1], name, options[option].kind) {
            Ok(()) => {},
            Err(message) => {
                return Err(message);
            },
        }
        let item = Given { option, value: from + 1 };
        let ghost before = given@;
        given.push(item);
        proof {
            if let Ok(others) = given_from(models, from + 2, command@, names, kinds) {
                assert(before + (seq![item] + others) == given@ + others);
            }
        }
        from = from + 2;
    }
    assert(given@ + Seq::<Given>::empty() == given@);
    Ok(given)
}

/// The place of the value that the option is last given, if it is.
pub open spec fn last_value(given: Seq<Given>, option: int) -> Option<int>
    decreases given.len(),
{
    if given.len() == 0 {
        None
    } else if given.last().option == option {
        Some(given.last().value as int)
    } else {
        last_value(given.drop_last(), option)
    }
}

/// The text that the option is last given.
pub open spec fn last_text(args: Seq<ArgModel>, given: Seq<Given>, option: int) -> Option<
    Seq<char>,
> {
    match last_value(given, option) {
        Some(place) => args[place].text,
        None => None,
    }
}

/// The path that the option is last given.
pub open spec fn last_path(args: Seq<ArgModel>, given: Seq<Given>, option: int) -> Option<
    PathBuf,
> {
    match last_value(given, option) {
        Some(place) => Some(args[place].path),
        None => None,
    }
}

/// The whole number that the option is last given.
pub open spec fn last_size(args: Seq<ArgModel>, given: Seq<Given>, option: int) -> Option<u32> {
    match last_text(args, given, option) {
        Some(text) => match number_value(text, 10, u32::MAX as int) {
            Ok(number) => Some(number as u32),
            Err(_) => None,
        },
        None => None,
    }
}

/// The texts that the option is given, in order.
pub open spec fn all_texts(args: Seq<ArgModel>, given: Seq<Given>, option: int) -> Seq<Seq<char>>
    decreases given.len(),
{
    if given.len() == 0 {
        Seq::empty()
    } else {
        let before = all_texts(args, given.drop_last(), option);
        if given.last().option == option {
            before.push(args[given.last().value as int].text->0)
        } else {
            before
        }
    }
}

fn find_last(given: &Vec<Given>, option: usize) -> (place: Option<usize>)
    ensures
        match place {
            Some(place) => last_value(given@, option as int) == Some(place as int) && exists|
                k: int,
            |
                0 <= k < given@.len() && (#[trigger] given@[k]).option == option && given@[k].value
                    == place,
            None => last_value(given@, option as int) is None,
        },
{
    let ghost all = given@;
    let mut i: usize = given.len();
    assert(all.take(all.len() as int) == all);
    while i > 0
        invariant
            all == given@,
            i <= all.len(),
            last_value(all, option as int) == last_value(all.take(i as int), option as int),
        decreases i,
    {
        assert(all.take(i as int).drop_last() == all.take(i - 1));
        assert(all.take(i as int).last() == all[i - 1]);
        if given[i - 1].option == option {
            return Some(given[i - 1].value);
        }
        i = i - 1;
    }
    None
}

fn take_text(args: &Vec<Arg>, given: &Vec<Given>, option: usize, Ghost(kinds): Ghost<Seq<ValueKind>>) -> (text: Option<
    String,
>)
    requires
        given_fits(given@, arg_models(args@), kinds),
    ensures
        optional(text) == last_text(arg_models(args@), given@, option as int),
{
    match find_last(given, option) {
        Some(place) => {
            assert(arg_models(args@)[place as int] == args@[place as int]@);
            match &args[place].text {
                Some(text) => Some(text.clone()),
                None => None,
            }
        },
        None => None,
    }
}

fn take_path(args: &Vec<Arg>, given: &Vec<Given>, option: usize, Ghost(kinds): Ghost<Seq<ValueKind>>) -> (path: Option<
    PathBuf,
>)
    requires
        given_fits(given@, arg_models(args@), kinds),
    ensures
        path == last_path(arg_models(args@), given@, option as int),
{
    match find_last(given, option) {
        Some(place) => {
            assert(arg_models(args@)[place as int] == args@[place as int]@);
            Some(args[place].path.clone())
        },
        None => None,
    }
}

fn take_size(args: &Vec<Arg>, given: &Vec<Given>, option: usize, Ghost(kinds): Ghost<Seq<ValueKind>>) -> (size: Option<
    u32,
>)
    requires
        given_fits(given@, arg_models(args@), kinds),
    ensures
        size == last_size(arg_models(args@), given@, option as int),
{
    match take_text(args, given, option, Ghost(kinds)) {
        Some(text) => match parse_number(text.as_str(), 10, u32::MAX as u64) {
            Ok(number) => Some(number as u32),
            Err(_) => None,
        },
        None => None,
    }
}

fn collect_texts(args: &Vec<Arg>, given: &Vec<Given>, option: usize, Ghost(kinds): Ghost<Seq<ValueKind>>) -> (found: Vec<
    String,
>)
    requires
        given_fits(given@, arg_models(args@), kinds),
        0 <= option < kinds.len(),
        kinds[option as int] == ValueKind::Text,
    ensures
        texts(found@) == all_texts(arg_models(args@), given@, option as int),
{
    let ghost models = arg_models(args@);
    let ghost all = given@;
    let mut found: Vec<String> = Vec::new();
    assert(all.take(0) == Seq::<Given>::empty());
    for i in 0..given.len()
        invariant
            models == arg_models(args@),
            all == given@,
            given_fits(all, models, kinds),
            0 <= option < kinds.len(),
            kinds[option as int] == ValueKind::Text,
            texts(found@) == all_texts(models, all.take(i as int), option as int),
    {
        assert(all.take(i + 1).drop_last() == all.take(i as int));
        assert(all.take(i + 1).last() == all[i as int]);
        if given[i].option == option {
            let place = given[i].value;
            assert(models[place as int] == args@[place as int]@);
            if let Some(text) = &args[place].text {
                let copy = text.clone();
                proof {
                    texts_push(found@, copy);
                }
                found.push(copy);
            }
        }
    }
    assert(all.take(all.len() as int) == all);
    found
}

/// The names with those of the pieces, trimmed, that are not empty and not there yet.
pub open spec fn with_names(names: Seq<Seq<char>>, pieces: Seq<Seq<char>>) -> Seq<Seq<char>>
    decreases pieces.len(),
{
    if pieces.len() == 0 {
        names
    } else {
        let before = with_names(names, pieces.drop_last());
        let name = trimmed(pieces.last());
        if name.len() == 0 || before.contains(name) {
            before
        } else {
            before.push(name)
        }
    }
}

/// Adds the names between the commas that are not there yet.
pub fn extend_unique_names(target: &mut Vec<String>, value: &str)
    ensures
        texts(final(target)@) == with_names(texts(old(target)@), split(value@, ',')),
{
    let pieces = split_at(value, ',');
    let ghost start = texts(target@);
    let ghost all = texts(pieces@);
    for i in 0..pieces.len()
        invariant
            start == texts(old(target)@),
            all == texts(pieces@),
            texts(target@) == with_names(start, all.take(i as int)),
    {
        assert(all.take(i + 1).drop_last() == all.take(i as int));
        assert(all.take(i + 1).last() == pieces@[i as int]@);
        let name = trim(pieces[i].as_str());
        if !name.as_str().is_empty() && !holds_text(target, name.as_str()) {
            proof {
                texts_push(target@, name);
            }
            target.push(name);
        }
    }
    assert(all.take(all.len() as int) == all);
}

/// The names of all the lists, each once.
pub open spec fn names_in(lists: Seq<Seq<char>>) -> Seq<Seq<char>>
    decreases lists.len(),
{
    if lists.len() == 0 {
        Seq::empty()
    } else {
        with_names(names_in(lists.drop_last()), split(lists.last(), ','))
    }
}

fn merge_names(lists: &Vec<String>) -> (names: Vec<String>)
    ensures
        texts(names@) == names_in(texts(lists@)),
{
    let ghost all = texts(lists@);
    let mut names: Vec<String> = Vec::new();
    assert(all.take(0) == Seq::<Seq<char>>::empty());
    assert(texts(names@) == Seq::<Seq<char>>::empty());
    for i in 0..lists.len()
        invariant
            all == texts(lists@),
            texts(names@) == names_in(all.take(i as int)),
    {
        assert(all.take(i + 1).drop_last() == all.take(i as int));
        assert(all.take(i + 1).last() == lists@[i as int]@);
        extend_unique_names(&mut names, lists[i].as_str());
    }
    assert(all.take(all.len() as int) == all);
    names
}

/// The names of a list are trimmed, not empty, and each stands in it once.
pub proof fn names_are_unique(lists: Seq<Seq<char>>)
    ensures
        names_in(lists).no_duplicates(),
        forall|i: int| 0 <= i < names_in(lists).len() ==> (#[trigger] names_in(lists)[i]).len() > 0,
    decreases lists.len(),
{
    if lists.len() > 0 {
        names_are_unique(lists.drop_last());
        added_names_are_unique(names_in(lists.drop_last()), split(lists.last(), ','));
    }
}

proof fn added_names_are_unique(names: Seq<Seq<char>>, pieces: Seq<Seq<char>>)
    requires
        names.no_duplicates(),
        forall|i: int| 0 <= i < names.len() ==> (#[trigger] names[i]).len() > 0,
    ensures
        with_names(names, pieces).no_duplicates(),
        forall|i: int|
            0 <= i < with_names(names, pieces).len() ==> (#[trigger] with_names(
                names,
                pieces,
            )[i]).len() > 0,
    decreases pieces.len(),
{
    if pieces.len() > 0 {
        added_names_are_unique(names, pieces.drop_last());
        let before = with_names(names, pieces.drop_last());
        let name = trimmed(pieces.last());
        if name.len() > 0 && !before.contains(name) {
            let all = before.push(name);
            assert forall|i: int, j: int|
                0 <= i < all.len() && 0 <= j < all.len() && i != j implies all[i] != all[j] by {
                if i < before.len() && j < before.len() {
                    assert(before[i] != before[j]);
                } else if i < before.len() {
                    assert(before.contains(before[i]));
                } else {
                    assert(before.contains(before[j]));
                }
            }
        }
    }
}

/// The comparison that the arguments ask for.
pub open spec fn key_diff_of(args: Seq<ArgModel>) -> Result<CommandModel, Seq<char>> {
    if args.len() < 2 {
        Err("csv_key_diff requires LEFT RIGHT and at least one --key VALUE pair"@)
    } else {
        match given_from(
            args,
            2,
            "csv_key_diff"@,
            seq!["--key"@],
            seq![ValueKind::Text],
        ) {
            Err(message) => Err(message),
            Ok(given) => {
                let keys = all_texts(args, given, 0);
                if keys.len() == 0 {
                    Err("csv_key_diff requires at least one --key VALUE pair"@)
                } else {
                    Ok(CommandModel::KeyDiff { left: args[0].path, right: args[1].path, keys })
                }
            },
        }
    }
}

/// Reads the arguments of a comparison.
pub fn parse_csv_key_diff(args: &Vec<Arg>) -> (result: Result<Command, String>)
    ensures
        command_result(result) == key_diff_of(arg_models(args@)),
{
    if args.len() < 2 {
        return Err("csv_key_diff requires LEFT RIGHT and at least one --key VALUE pair".to_owned());
    }
    let options = vec![
        OptionSpec { name: "--key", kind: ValueKind::Text },
    ];
    let ghost kinds = option_kinds(options@);
    assert(option_names(options@) =~= seq!["--key"@]);
    assert(kinds =~= seq![ValueKind::Text]);
    let ghost models = arg_models(args@);
    assert(models[0] == args@[0]@);
    let given = match scan_options(args, 2, "csv_key_diff", &options) {
        Ok(given) => given,
        Err(message) => {
            return Err(message);
        },
    };
    let keys = collect_texts(args, &given, 0, Ghost(kinds));
    assert(texts(keys@).len() == keys@.len());
    if keys.len() == 0 {
        return Err("csv_key_diff requires at least one --key VALUE pair".to_owned());
    }
    assert(models[1] == args@[1]@);
    Ok(Command::KeyDiff { left: args[0].path.clone(), right: args[1].path.clone(), keys })
}

/// The extraction that the arguments ask for.
pub open spec fn key_diff_extract_of(args: Seq<ArgModel>) -> Result<CommandModel, Seq<char>> {
    if args.len() < 3 {
        Err("csv_key_diff_extract requires LEFT RIGHT DIFF --output_left PATH --output_right PATH"@)
    } else {
        match given_from(
            args,
            3,
            "csv_key_diff_extract"@,
            seq!["--output_left"@, "--output_right"@],
            seq![ValueKind::Path, ValueKind::Path],
        ) {
            Err(message) => Err(message),
            Ok(given) => match (
                last_path(args, given, 0),
                last_path(args, given, 1),
            ) {
                (None, _) => Err("csv_key_diff_extract requires --output_left PATH"@),
                (Some(_), None) => Err("csv_key_diff_extract requires --output_right PATH"@),
                (Some(output_left), Some(output_right)) => Ok(
                    CommandModel::KeyDiffExtract {
                        left: args[0].path,
                        right: args[1].path,
                        diff: args[2].path,
                        output_left,
                        output_right,
                    },
                ),
            },
        }
    }
}

/// Reads the arguments of an extraction.
pub fn parse_csv_key_diff_extract(args: &Vec<Arg>) -> (result: Result<Command, String>)
    ensures
        command_result(result) == key_diff_extract_of(arg_models(args@)),
{
    if args.len() < 3 {
        return Err("csv_key_diff_extract requires LEFT RIGHT DIFF --output_left PATH --output_right PATH".to_owned());
    }
    let options = vec![
        OptionSpec { name: "--output_left", kind: ValueKind::Path },
        OptionSpec { name: "--output_right", kind: ValueKind::Path },
    ];
    let ghost kinds = option_kinds(options@);
    assert(option_names(options@) =~= seq!["--output_left"@, "--output_right"@]);
    assert(kinds =~= seq![ValueKind::Path, ValueKind::Path]);
    let ghost models = arg_models(args@);
    assert(models[0] == args@[0]@);
    let given = match scan_options(args, 3, "csv_key_diff_extract", &options) {
        Ok(given) => given,
        Err(message) => {
            return Err(message);
        },
    };
    let output_left = match take_path(args, &given, 0, Ghost(kinds)) {
        Some(path) => path,
        None => {
            return Err("csv_key_diff_extract requires --output_left PATH".to_owned());
        },
    };
    let output_right = match take_path(args, &given, 1, Ghost(kinds)) {
        Some(path) => path,
        None => {
            return Err("csv_key_diff_extract requires --output_right PATH".to_owned());
        },
    };
    assert(models[1] == args@[1]@);
    assert(models[2] == args@[2]@);
    Ok(
        Command::KeyDiffExtract {
            left: args[0].path.clone(),
            right: args[1].path.clone(),
            diff: args[2].path.clone(),
            output_left,
            output_right,
        },
    )
}

/// The pseudo derivative that the arguments ask for.
pub open spec fn pseudo_diff_of(args: Seq<ArgModel>) -> Result<CommandModel, Seq<char>> {
    if args.len() < 1 {
        Err("csv_pseudo_diff requires INPUT --time-column NAME --value-column NAME --time-scale VALUE"@)
    } else {
        match given_from(
            args,
            1,
            "csv_pseudo_diff"@,
            seq!["--time-column"@, "--value-column"@, "--time-scale"@, "--output"@],
            seq![ValueKind::Text, ValueKind::Text, ValueKind::Number, ValueKind::Path],
        ) {
            Err(message) => Err(message),
            Ok(given) => match (
                last_text(args, given, 0),
                last_text(args, given, 1),
                last_text(args, given, 2),
            ) {
                (None, _, _) => Err("csv_pseudo_diff requires --time-column NAME"@),
                (Some(_), None, _) => Err("csv_pseudo_diff requires --value-column NAME"@),
                (Some(_), Some(_), None) => Err("csv_pseudo_diff requires --time-scale VALUE"@),
                (Some(time_column), Some(value_column), Some(time_scale)) => Ok(
                    CommandModel::PseudoDiff {
                        input: args[0].path,
                        time_column,
                        value_column,
                        time_scale,
                        output: last_path(args, given, 3),
                    },
                ),
            },
        }
    }
}

/// Reads the arguments of a pseudo derivative.
pub fn parse_csv_pseudo_diff(args: &Vec<Arg>) -> (result: Result<Command, String>)
    ensures
        command_result(result) == pseudo_diff_of(arg_models(args@)),
{
    if args.len() < 1 {
        return Err("csv_pseudo_diff requires INPUT --time-column NAME --value-column NAME --time-scale VALUE".to_owned());
    }
    let options = vec![
        OptionSpec { name: "--time-column", kind: ValueKind::Text },
        OptionSpec { name: "--value-column", kind: ValueKind::Text },
        OptionSpec { name: "--time-scale", kind: ValueKind::Number },
        OptionSpec { name: "--output", kind: ValueKind::Path },
    ];
    let ghost kinds = option_kinds(options@);
    assert(option_names(options@) =~= seq!["--time-column"@, "--value-column"@, "--time-scale"@, "--output"@]);
    assert(kinds =~= seq![ValueKind::Text, ValueKind::Text, ValueKind::Number, ValueKind::Path]);
    let ghost models = arg_models(args@);
    assert(models[0] == args@[0]@);
    let given = match scan_options(args, 1, "csv_pseudo_diff", &options) {
        Ok(given) => given,
        Err(message) => {
            return Err(message);
        },
    };
    let time_column = match take_text(args, &given, 0, Ghost(kinds)) {
        Some(text) => text,
        None => {
            return Err("csv_pseudo_diff requires --time-column NAME".to_owned());
        },
    };
    let value_column = match take_text(args, &given, 1, Ghost(kinds)) {
        Some(text) => text,
        None => {
            return Err("csv_pseudo_diff requires --value-column NAME".to_owned());
        },
    };
    let time_scale = match take_text(args, &given, 2, Ghost(kinds)) {
        Some(text) => text,
        None => {
            return Err("csv_pseudo_diff requires --time-scale VALUE".to_owned());
        },
    };
    let output = take_path(args, &given, 3, Ghost(kinds));
    Ok(
        Command::PseudoDiff {
            input: args[0].path.clone(),
            time_column,
            value_column,
            time_scale,
            output,
        },
    )
}

/// The search for anomalies that the arguments ask for.
pub open spec fn anomaly_detect_of(args: Seq<ArgModel>) -> Result<CommandModel, Seq<char>> {
    if args.len() < 1 {
        Err("csv_anomaly_detect requires INPUT --x-column NAME --y-columns NAME[,NAME...]"@)
    } else {
        match given_from(
            args,
            1,
            "csv_anomaly_detect"@,
            seq!["--x-column"@, "--y-columns"@],
            seq![ValueKind::Text, ValueKind::Text],
        ) {
            Err(message) => Err(message),
            Ok(given) => match last_text(args, given, 0) {
                None => Err("csv_anomaly_detect requires --x-column NAME"@),
                Some(x_column) => {
                    let y_columns = names_in(all_texts(args, given, 1));
                    if y_columns.len() == 0 {
                        Err("csv_anomaly_detect requires --y-columns NAME[,NAME...]"@)
                    } else {
                        Ok(
                            CommandModel::AnomalyDetect {
                                input: args[0].path,
                                x_column,
                                y_columns,
                            },
                        )
                    }
                },
            },
        }
    }
}

/// Reads the arguments of a search for anomalies.
pub fn parse_csv_anomaly_detect(args: &Vec<Arg>) -> (result: Result<Command, String>)
    ensures
        command_result(result) == anomaly_detect_of(arg_models(args@)),
{
    if args.len() < 1 {
        return Err("csv_anomaly_detect requires INPUT --x-column NAME --y-columns NAME[,NAME...]".to_owned());
    }
    let options = vec![
        OptionSpec { name: "--x-column", kind: ValueKind::Text },
        OptionSpec { name: "--y-columns", kind: ValueKind::Text },
    ];
    let ghost kinds = option_kinds(options@);
    assert(option_names(options@) =~= seq!["--x-column"@, "--y-columns"@]);
    assert(kinds =~= seq![ValueKind::Text, ValueKind::Text]);
    let ghost models = arg_models(args@);
    assert(models[0] == args@[0]@);
    let given = match scan_options(args, 1, "csv_anomaly_detect", &options) {
        Ok(given) => given,
        Err(message) => {
            return Err(message);
        },
    };
    let x_column = match take_text(args, &given, 0, Ghost(kinds)) {
        Some(text) => text,
        None => {
            return Err("csv_anomaly_detect requires --x-column NAME".to_owned());
        },
    };
    let y_columns = merge_names(&collect_texts(args, &given, 1, Ghost(kinds)));
    assert(texts(y_columns@).len() == y_columns@.len());
    if y_columns.len() == 0 {
        return Err("csv_anomaly_detect requires --y-columns NAME[,NAME...]".to_owned());
    }
    Ok(Command::AnomalyDetect { input: args[0].path.clone(), x_column, y_columns })
}

/// The split that the arguments ask for.
pub open spec fn label_split_of(args: Seq<ArgModel>) -> Result<CommandModel, Seq<char>> {
    if args.len() < 1 {
        Err("csv_label_split requires INPUT --label-column NAME [--output-dir PATH]"@)
    } else {
        match given_from(
            args,
            1,
            "csv_label_split"@,
            seq!["--label-column"@, "--output-dir"@],
            seq![ValueKind::Text, ValueKind::Path],
        ) {
            Err(message) => Err(message),
            Ok(given) => match last_text(args, given, 0) {
                None => Err("csv_label_split requires --label-column NAME"@),
                Some(label_column) => Ok(
                    CommandModel::LabelSplit {
                        input: args[0].path,
                        label_column,
                        output_dir: last_path(args, given, 1),
                    },
                ),
            },
        }
    }
}

/// Reads the arguments of a split.
pub fn parse_csv_label_split(args: &Vec<Arg>) -> (result: Result<Command, String>)
    ensures
        command_result(result) == label_split_of(arg_models(args@)),
{
    if args.len() < 1 {
        return Err("csv_label_split requires INPUT --label-column NAME [--output-dir PATH]".to_owned());
    }
    let options = vec![
        OptionSpec { name: "--label-column", kind: ValueKind::Text },
        OptionSpec { name: "--output-dir", kind: ValueKind::Path },
    ];
    let ghost kinds = option_kinds(options@);
    assert(option_names(options@) =~= seq!["--label-column"@, "--output-dir"@]);
    assert(kinds =~= seq![ValueKind::Text, ValueKind::Path]);
    let ghost models = arg_models(args@);
    assert(models[0] == args@[0]@);
    let given = match scan_options(args, 1, "csv_label_split", &options) {
        Ok(given) => given,
        Err(message) => {
            return Err(message);
        },
    };
    let label_column = match take_text(args, &given, 0, Ghost(kinds)) {
        Some(text) => text,
        None => {
            return Err("csv_label_split requires --label-column NAME".to_owned());
        },
    };
    let output_dir = take_path(args, &given, 1, Ghost(kinds));
    Ok(Command::LabelSplit { input: args[0].path.clone(), label_column, output_dir })
}

/// The spectrum that the arguments ask for.
pub open spec fn power_spectrum_of(args: Seq<ArgModel>) -> Result<CommandModel, Seq<char>> {
    if args.len() < 1 {
        Err("csv_power_spectrum requires INPUT --x-column NAME --y-column NAME"@)
    } else {
        match given_from(
            args,
            1,
            "csv_power_spectrum"@,
            seq!["--x-column"@, "--y-column"@],
            seq![ValueKind::Text, ValueKind::Text],
        ) {
            Err(message) => Err(message),
            Ok(given) => match (
                last_text(args, given, 0),
                last_text(args, given, 1),
            ) {
                (None, _) => Err("csv_power_spectrum requires --x-column NAME"@),
                (Some(_), None) => Err("csv_power_spectrum requires --y-column NAME"@),
                (Some(x_column), Some(y_column)) => Ok(
                    CommandModel::PowerSpectrum { input: args[0].path, x_column, y_column },
                ),
            },
        }
    }
}

/// Reads the arguments of a spectrum.
pub fn parse_csv_power_spectrum(args: &Vec<Arg>) -> (result: Result<Command, String>)
    ensures
        command_result(result) == power_spectrum_of(arg_models(args@)),
{
    if args.len() < 1 {
        return Err("csv_power_spectrum requires INPUT --x-column NAME --y-column NAME".to_owned());
    }
    let options = vec![
        OptionSpec { name: "--x-column", kind: ValueKind::Text },
        OptionSpec { name: "--y-column", kind: ValueKind::Text },
    ];
    let ghost kinds = option_kinds(options@);
    assert(option_names(options@) =~= seq!["--x-column"@, "--y-column"@]);
    assert(kinds =~= seq![ValueKind::Text, ValueKind::Text]);
    let ghost models = arg_models(args@);
    assert(models[0] == args@[0]@);
    let given = match scan_options(args, 1, "csv_power_spectrum", &options) {
        Ok(given) => given,
        Err(message) => {
            return Err(message);
        },
    };
    let x_column = match take_text(args, &given, 0, Ghost(kinds)) {
        Some(text) => text,
        None => {
            return Err("csv_power_spectrum requires --x-column NAME".to_owned());
        },
    };
    let y_column = match take_text(args, &given, 1, Ghost(kinds)) {
        Some(text) => text,
        None => {
            return Err("csv_power_spectrum requires --y-column NAME".to_owned());
        },
    };
    Ok(Command::PowerSpectrum { input: args[0].path.clone(), x_column, y_column })
}

/// The name of the command that plots on the screen or to an image.
pub open spec fn plot_command(image: bool) -> Seq<char> {
    if image {
        "csv_plot_image"@
    } else {
        "csv_plot"@
    }
}

/// The options of a plot.
pub open spec fn plot_names(image: bool) -> Seq<Seq<char>> {
    if image {
        seq![
            "--x-column"@,
            "--y-columns"@,
            "--label-column"@,
            "--timestamp-column"@,
            "--value-column"@,
            "--state-column"@,
            "--state-csv"@,
            "--output"@,
            "--width"@,
            "--height"@,
        ]
    } else {
        seq![
            "--x-column"@,
            "--y-columns"@,
            "--label-column"@,
            "--timestamp-column"@,
            "--value-column"@,
            "--state-column"@,
            "--state-csv"@,
        ]
    }
}

/// What the values of the options of a plot are.
pub open spec fn plot_kinds(image: bool) -> Seq<ValueKind> {
    if image {
        seq![
            ValueKind::Text,
            ValueKind::Text,
            ValueKind::Text,
            ValueKind::Text,
            ValueKind::Text,
            ValueKind::Text,
            ValueKind::Path,
            ValueKind::Path,
            ValueKind::Size,
            ValueKind::Size,
        ]
    } else {
        seq![
            ValueKind::Text,
            ValueKind::Text,
            ValueKind::Text,
            ValueKind::Text,
            ValueKind::Text,
            ValueKind::Text,
            ValueKind::Path,
        ]
    }
}

fn plot_options(image: bool) -> (options: Vec<OptionSpec>)
    ensures
        option_names(options@) == plot_names(image),
        option_kinds(options@) == plot_kinds(image),
{
    let mut options = vec![
        OptionSpec { name: "--x-column", kind: ValueKind::Text },
        OptionSpec { name: "--y-columns", kind: ValueKind::Text },
        OptionSpec { name: "--label-column", kind: ValueKind::Text },
        OptionSpec { name: "--timestamp-column", kind: ValueKind::Text },
        OptionSpec { name: "--value-column", kind: ValueKind::Text },
        OptionSpec { name: "--state-column", kind: ValueKind::Text },
        OptionSpec { name: "--state-csv", kind: ValueKind::Path },
    ];
    if image {
        options.push(OptionSpec { name: "--output", kind: ValueKind::Path });
        options.push(OptionSpec { name: "--width", kind: ValueKind::Size });
        options.push(OptionSpec { name: "--height", kind: ValueKind::Size });
    }
    assert(option_names(options@) =~= plot_names(image));
    assert(option_kinds(options@) =~= plot_kinds(image));
    options
}

/// The state overlay that a call asks for, or why it asks for none.
pub open spec fn overlay_of(args: Seq<ArgModel>, given: Seq<Given>, image: bool) -> Result<
    Option<StateModel>,
    Seq<char>,
> {
    match (last_text(args, given, 5), last_path(args, given, 6)) {
        (Some(column), Some(definitions)) => Ok(Some(StateModel { column, definitions })),
        (None, None) => Ok(None),
        _ => Err(
            plot_command(image) + " requires --state-column NAME and --state-csv PATH together"@,
        ),
    }
}

/// What a call asks to plot, or why it asks for nothing.
pub open spec fn mode_of(args: Seq<ArgModel>, given: Seq<Given>, image: bool) -> Result<
    PlotModel,
    Seq<char>,
> {
    let y_columns = names_in(all_texts(args, given, 1));
    let label = last_text(args, given, 2);
    let timestamp = last_text(args, given, 3);
    let value = last_text(args, given, 4);
    let tail = if image {
        " --output PATH"@
    } else {
        ""@
    };
    match (overlay_of(args, given, image), last_text(args, given, 0)) {
        (Err(message), _) => Err(message),
        (Ok(state), Some(x_column)) => if y_columns.len() > 0 && label is None && timestamp is None
            && value is None {
            Ok(PlotModel::XY { x_column, y_columns, state })
        } else {
            Err(
                plot_command(image)
                    + " XY mode requires only --x-column NAME --y-columns NAME[,NAME...]"@ + tail,
            )
        },
        (Ok(state), None) => if y_columns.len() > 0 {
            Err(plot_command(image) + " requires --x-column together with --y-columns"@)
        } else {
            match (label, timestamp, value) {
                (Some(label_column), Some(timestamp_column), Some(value_column)) => Ok(
                    PlotModel::LabeledSeries {
                        label_column,
                        timestamp_column,
                        value_column,
                        state,
                    },
                ),
                _ => Err(
                    plot_command(image)
                        + " labeled mode requires --label-column NAME --timestamp-column NAME --value-column NAME"@
                        + tail,
                ),
            }
        },
    }
}

/// What a plot is to be made of.
pub struct PlotArgs {
    pub input: PathBuf,
    pub mode: CsvPlotCommand,
    pub output: Option<PathBuf>,
    pub width: Option<u32>,
    pub height: Option<u32>,
}

/// What a [`PlotArgs`] says.
pub struct PlotArgsModel {
    pub input: PathBuf,
    pub mode: PlotModel,
    pub output: Option<PathBuf>,
    pub width: Option<u32>,
    pub height: Option<u32>,
}

/// What the arguments of a plot ask for, or why they ask for nothing.
pub open spec fn plot_args_of(args: Seq<ArgModel>, image: bool) -> Result<
    PlotArgsModel,
    Seq<char>,
> {
    if args.len() < 1 {
        Err(
            if image {
                "csv_plot_image requires INPUT with either --x-column/--y-columns or --label-column/--timestamp-column/--value-column plus --output PATH"@
            } else {
                "csv_plot requires INPUT with either --x-column/--y-columns or --label-column/--timestamp-column/--value-column"@
            },
        )
    } else {
        match given_from(args, 1, plot_command(image), plot_names(image), plot_kinds(image)) {
            Err(message) => Err(message),
            Ok(given) => match mode_of(args, given, image) {
                Err(message) => Err(message),
                Ok(mode) => Ok(
                    PlotArgsModel {
                        input: args[0].path,
                        mode,
                        output: last_path(args, given, 7),
                        width: last_size(args, given, 8),
                        height: last_size(args, given, 9),
                    },
                ),
            },
        }
    }
}

/// What plot arguments that may not be readable say.
pub open spec fn plot_args_result(result: Result<PlotArgs, String>) -> Result<
    PlotArgsModel,
    Seq<char>,
> {
    match result {
        Ok(args) => Ok(
            PlotArgsModel {
                input: args.input,
                mode: args.mode@,
                output: args.output,
                width: args.width,
                height: args.height,
            },
        ),
        Err(message) => Err(message@),
    }
}

fn name_plot_command(image: bool) -> (name: &'static str)
    ensures
        name@ == plot_command(image),
{
    if image {
        "csv_plot_image"
    } else {
        "csv_plot"
    }
}

fn plot_message(image: bool, words: &str, tail: bool) -> (message: String)
    ensures
        message@ == plot_command(image) + words@ + (if tail {
            if image {
                " --output PATH"@
            } else {
                ""@
            }
        } else {
            Seq::empty()
        }),
{
    let mut message = name_plot_command(image).to_owned();
    message.append(words);
    proof {
        reveal_strlit("");
    }
    if tail && image {
        message.append(" --output PATH");
    }
    assert(message@ == plot_command(image) + words@ + (if tail && image {
        " --output PATH"@
    } else {
        Seq::empty()
    }));
    assert(""@ == Seq::<char>::empty());
    message
}

fn read_overlay(
    args: &Vec<Arg>,
    given: &Vec<Given>,
    image: bool,
    Ghost(kinds): Ghost<Seq<ValueKind>>,
) -> (result: Result<Option<StateOverlayCommand>, String>)
    requires
        given_fits(given@, arg_models(args@), kinds),
    ensures
        match result {
            Ok(state) => overlay_of(arg_models(args@), given@, image) == Ok::<
                Option<StateModel>,
                Seq<char>,
            >(state_model(state)),
            Err(message) => overlay_of(arg_models(args@), given@, image) == Err::<
                Option<StateModel>,
                Seq<char>,
            >(message@),
        },
{
    let column = take_text(args, given, 5, Ghost(kinds));
    let definitions = take_path(args, given, 6, Ghost(kinds));
    match (column, definitions) {
        (Some(column), Some(definitions)) => Ok(Some(StateOverlayCommand { column, definitions })),
        (None, None) => Ok(None),
        _ => {
            let message = plot_message(
                image,
                " requires --state-column NAME and --state-csv PATH together",
                false,
            );
            assert(message@ == plot_command(image)
                + " requires --state-column NAME and --state-csv PATH together"@);
            Err(message)
        },
    }
}

fn read_mode(
    args: &Vec<Arg>,
    given: &Vec<Given>,
    image: bool,
    Ghost(kinds): Ghost<Seq<ValueKind>>,
) -> (result: Result<CsvPlotCommand, String>)
    requires
        given_fits(given@, arg_models(args@), kinds),
        kinds == plot_kinds(image),
    ensures
        match result {
            Ok(mode) => mode_of(arg_models(args@), given@, image) == Ok::<PlotModel, Seq<char>>(
                mode@,
            ),
            Err(message) => mode_of(arg_models(args@), given@, image) == Err::<
                PlotModel,
                Seq<char>,
            >(message@),
        },
{
    let state = match read_overlay(args, given, image, Ghost(kinds)) {
        Ok(state) => state,
        Err(message) => {
            return Err(message);
        },
    };
    let x_column = take_text(args, given, 0, Ghost(kinds));
    let y_columns = merge_names(&collect_texts(args, given, 1, Ghost(kinds)));
    let label_column = take_text(args, given, 2, Ghost(kinds));
    let timestamp_column = take_text(args, given, 3, Ghost(kinds));
    let value_column = take_text(args, given, 4, Ghost(kinds));
    assert(texts(y_columns@).len() == y_columns@.len());
    if let Some(x_column) = x_column {
        if y_columns.len() > 0 && label_column.is_none() && timestamp_column.is_none()
            && value_column.is_none() {
            return Ok(CsvPlotCommand::XY { x_column, y_columns, state });
        }
        return Err(
            plot_message(
                image,
                " XY mode requires only --x-column NAME --y-columns NAME[,NAME...]",
                true,
            ),
        );
    }
    if y_columns.len() > 0 {
        let message = plot_message(
            image,
            " requires --x-column together with --y-columns",
            false,
        );
        assert(message@ == plot_command(image)
            + " requires --x-column together with --y-columns"@);
        return Err(message);
    }
    match (label_column, timestamp_column, value_column) {
        (Some(label_column), Some(timestamp_column), Some(value_column)) => Ok(
            CsvPlotCommand::LabeledSeries { label_column, timestamp_column, value_column, state },
        ),
        _ => Err(
            plot_message(
                image,
                " labeled mode requires --label-column NAME --timestamp-column NAME --value-column NAME",
                true,
            ),
        ),
    }
}

/// Reads the arguments of a plot on the screen or to an image.
pub fn parse_csv_plot_args(args: &Vec<Arg>, require_output: bool) -> (result: Result<
    PlotArgs,
    String,
>)
    ensures
        plot_args_result(result) == plot_args_of(arg_models(args@), require_output),
{
    if args.len() < 1 {
        return Err(
            (if require_output {
                "csv_plot_image requires INPUT with either --x-column/--y-columns or --label-column/--timestamp-column/--value-column plus --output PATH"
            } else {
                "csv_plot requires INPUT with either --x-column/--y-columns or --label-column/--timestamp-column/--value-column"
            }).to_owned(),
        );
    }
    let options = plot_options(require_output);
    let ghost kinds = option_kinds(options@);
    let ghost models = arg_models(args@);
    assert(models[0] == args@[0]@);
    let given = match scan_options(args, 1, name_plot_command(require_output), &options) {
        Ok(given) => given,
        Err(message) => {
            return Err(message);
        },
    };
    let mode = match read_mode(args, &given, require_output, Ghost(kinds)) {
        Ok(mode) => mode,
        Err(message) => {
            return Err(message);
        },
    };
    Ok(
        PlotArgs {
            input: args[0].path.clone(),
            mode,
            output: take_path(args, &given, 7, Ghost(kinds)),
            width: take_size(args, &given, 8, Ghost(kinds)),
            height: take_size(args, &given, 9, Ghost(kinds)),
        },
    )
}

/// The plot on the screen that the arguments ask for.
pub open spec fn plot_of(args: Seq<ArgModel>) -> Result<CommandModel, Seq<char>> {
    match plot_args_of(args, false) {
        Err(message) => Err(message),
        Ok(plot) => Ok(CommandModel::Plot { input: plot.input, mode: plot.mode }),
    }
}

/// Reads the arguments of a plot on the screen.
pub fn parse_csv_plot(args: &Vec<Arg>) -> (result: Result<Command, String>)
    ensures
        command_result(result) == plot_of(arg_models(args@)),
{
    match parse_csv_plot_args(args, false) {
        Ok(plot) => Ok(Command::Plot { input: plot.input, mode: plot.mode }),
        Err(message) => Err(message),
    }
}

/// The image that the arguments ask for. Where they give a width or a height alone, the other is
/// the standard one.
pub open spec fn plot_image_of(args: Seq<ArgModel>) -> Result<CommandModel, Seq<char>> {
    match plot_args_of(args, true) {
        Err(message) => Err(message),
        Ok(plot) => match plot.output {
            None => Err("csv_plot_image requires --output PATH"@),
            Some(output) => Ok(
                if plot.width is None && plot.height is None {
                    CommandModel::PlotImage { input: plot.input, mode: plot.mode, output }
                } else {
                    CommandModel::PlotImageSized {
                        input: plot.input,
                        mode: plot.mode,
                        output,
                        width: match plot.width {
                            Some(width) => width,
                            None => DEFAULT_IMAGE_SIZE.0,
                        },
                        height: match plot.height {
                            Some(height) => height,
                            None => DEFAULT_IMAGE_SIZE.1,
                        },
                    }
                },
            ),
        },
    }
}

/// Reads the arguments of a plot to an image.
pub fn parse_csv_plot_image(args: &Vec<Arg>) -> (result: Result<Command, String>)
    ensures
        command_result(result) == plot_image_of(arg_models(args@)),
{
    let plot = match parse_csv_plot_args(args, true) {
        Ok(plot) => plot,
        Err(message) => {
            return Err(message);
        },
    };
    let output = match plot.output {
        Some(output) => output,
        None => {
            return Err("csv_plot_image requires --output PATH".to_owned());
        },
    };
    if plot.width.is_none() && plot.height.is_none() {
        return Ok(Command::PlotImage { input: plot.input, mode: plot.mode, output });
    }
    let width = match plot.width {
        Some(width) => width,
        None => DEFAULT_IMAGE_SIZE.0,
    };
    let height = match plot.height {
        Some(height) => height,
        None => DEFAULT_IMAGE_SIZE.1,
    };
    Ok(Command::PlotImageSized { input: plot.input, mode: plot.mode, output, width, height })
}

/// How the program is called.
pub open spec fn usage_text() -> Seq<char> {
    "usage:\n  my_dev_tools csv_anomaly_detect INPUT --x-column NAME --y-columns NAME[,NAME...]\n  my_dev_tools csv_key_diff LEFT RIGHT --key KEY [--key KEY ...]\n  my_dev_tools csv_key_diff_extract LEFT RIGHT DIFF --output_left PATH --output_right PATH\n  my_dev_tools csv_label_split INPUT --label-column NAME [--output-dir PATH]\n  my_dev_tools csv_power_spectrum INPUT --x-column NAME --y-column NAME\n  my_dev_tools csv_pseudo_diff INPUT --time-column NAME --value-column NAME --time-scale VALUE [--output PATH]\n  my_dev_tools csv_plot INPUT --x-column NAME --y-columns NAME[,NAME...] [--state-column NAME --state-csv PATH]\n  my_dev_tools csv_plot INPUT --label-column NAME --timestamp-column NAME --value-column NAME [--state-column NAME --state-csv PATH]\n  my_dev_tools csv_plot_image INPUT --x-column NAME --y-columns NAME[,NAME...] --output PATH [--width PIXELS] [--height PIXELS] [--state-column NAME --state-csv PATH]\n  my_dev_tools csv_plot_image INPUT --label-column NAME --timestamp-column NAME --value-column NAME --output PATH [--width PIXELS] [--height PIXELS] [--state-column NAME --state-csv PATH]\n"@
}

/// How the program is called.
pub fn usage() -> (text: &'static str)
    ensures
        text@ == usage_text(),
{
    "usage:\n  my_dev_tools csv_anomaly_detect INPUT --x-column NAME --y-columns NAME[,NAME...]\n  my_dev_tools csv_key_diff LEFT RIGHT --key KEY [--key KEY ...]\n  my_dev_tools csv_key_diff_extract LEFT RIGHT DIFF --output_left PATH --output_right PATH\n  my_dev_tools csv_label_split INPUT --label-column NAME [--output-dir PATH]\n  my_dev_tools csv_power_spectrum INPUT --x-column NAME --y-column NAME\n  my_dev_tools csv_pseudo_diff INPUT --time-column NAME --value-column NAME --time-scale VALUE [--output PATH]\n  my_dev_tools csv_plot INPUT --x-column NAME --y-columns NAME[,NAME...] [--state-column NAME --state-csv PATH]\n  my_dev_tools csv_plot INPUT --label-column NAME --timestamp-column NAME --value-column NAME [--state-column NAME --state-csv PATH]\n  my_dev_tools csv_plot_image INPUT --x-column NAME --y-columns NAME[,NAME...] --output PATH [--width PIXELS] [--height PIXELS] [--state-column NAME --state-csv PATH]\n  my_dev_tools csv_plot_image INPUT --label-column NAME --timestamp-column NAME --value-column NAME --output PATH [--width PIXELS] [--height PIXELS] [--state-column NAME --state-csv PATH]\n"
}

/// The command that the arguments ask for, or why they ask for none.
pub open spec fn command_of(args: Seq<ArgModel>) -> Result<CommandModel, Seq<char>> {
    if args.len() == 0 || args[0].text is None {
        Err(usage_text())
    } else {
        let command = args[0].text->0;
        let rest = args.skip(1);
        if command == "csv_key_diff"@ {
            key_diff_of(rest)
        } else if command == "csv_key_diff_extract"@ {
            key_diff_extract_of(rest)
        } else if command == "csv_pseudo_diff"@ {
            pseudo_diff_of(rest)
        } else if command == "csv_anomaly_detect"@ {
            anomaly_detect_of(rest)
        } else if command == "csv_label_split"@ {
            label_split_of(rest)
        } else if command == "csv_plot"@ {
            plot_of(rest)
        } else if command == "csv_plot_image"@ {
            plot_image_of(rest)
        } else if command == "csv_power_spectrum"@ {
            power_spectrum_of(rest)
        } else {
            Err("unknown command: "@ + command + "\n\n"@ + usage_text())
        }
    }
}

/// A copy of the argument.
fn copy_arg(arg: &Arg) -> (copy: Arg)
    ensures
        copy@ == arg@,
{
    let text = match &arg.text {
        Some(text) => Some(text.clone()),
        None => None,
    };
    let number_error = match &arg.number_error {
        Some(message) => Some(message.clone()),
        None => None,
    };
    Arg { text, path: arg.path.clone(), number_error }
}

/// Reads the arguments of a call.
pub fn parse_args(args: &Vec<Arg>) -> (result: Result<Command, String>)
    ensures
        command_result(result) == command_of(arg_models(args@)),
{
    if args.len() == 0 {
        return Err(usage().to_owned());
    }
    let ghost models = arg_models(args@);
    assert(models[0] == args@[0]@);
    let command = match &args[0].text {
        Some(command) => command.as_str(),
        None => {
            return Err(usage().to_owned());
        },
    };
    let mut rest: Vec<Arg> = Vec::new();
    for i in 1..args.len()
        invariant
            models == arg_models(args@),
            rest@.len() == i - 1,
            forall|k: int| 0 <= k < rest@.len() ==> (#[trigger] rest@[k])@ == models[k + 1],
    {
        rest.push(copy_arg(&args[i]));
    }
    assert(arg_models(rest@) == models.skip(1));
    if same_text(command, "csv_key_diff") {
        parse_csv_key_diff(&rest)
    } else if same_text(command, "csv_key_diff_extract") {
        parse_csv_key_diff_extract(&rest)
    } else if same_text(command, "csv_pseudo_diff") {
        parse_csv_pseudo_diff(&rest)
    } else if same_text(command, "csv_anomaly_detect") {
        parse_csv_anomaly_detect(&rest)
    } else if same_text(command, "csv_label_split") {
        parse_csv_label_split(&rest)
    } else if same_text(command, "csv_plot") {
        parse_csv_plot(&rest)
    } else if same_text(command, "csv_plot_image") {
        parse_csv_plot_image(&rest)
    } else if same_text(command, "csv_power_spectrum") {
        parse_csv_power_spectrum(&rest)
    } else {
        let mut message = "unknown command: ".to_owned();
        message.append(command);
        message.append("\n\n");
        message.append(usage());
        Err(message)
    }
}

} // verus!
