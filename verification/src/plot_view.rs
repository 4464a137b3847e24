//! What a plot on the terminal does when a key is pressed, and how its parts are laid out.
use vstd::prelude::*;

use crate::plot_states::{state_lane_labels, StateBands};
use crate::text::join;

verus! {

use crate::plot_states::lane_labels;
use crate::text::{joined, texts};

/// A key that is pressed.
#[derive(Debug, Clone, Copy, PartialEq, Eq, Structural)]
pub enum Key {
    Char(char),
    Left,
    Right,
    Up,
    Down,
    Esc,
    Enter,
    Other,
}

/// The ranges of numbers that are shown.
#[derive(Debug, Clone, Copy, PartialEq, Eq, Structural)]
pub enum Bounds {
    MainX,
    MainY,
    DerivativeY,
    FftY,
}

/// What becomes of a range.
#[derive(Debug, Clone, Copy, PartialEq, Eq, Structural)]
pub enum Change {
    PanBack,
    PanForward,
    ZoomIn,
    ZoomOut,
}

/// A change of a range.
#[derive(Debug, Clone, Copy, PartialEq, Eq, Structural)]
pub struct Move {
    pub bounds: Bounds,
    pub change: Change,
}

/// Which panels below the plot are asked for.
#[derive(Debug, Clone, Copy, PartialEq, Eq, Structural)]
pub struct Panels {
    pub show_derivative: bool,
    pub show_fft: bool,
}

/// Which panels below the plot there can be.
#[derive(Debug, Clone, Copy, PartialEq, Eq, Structural)]
pub struct Allowed {
    pub derivative: bool,
    pub fft: bool,
}

/// What is done when a key is pressed.
#[derive(Debug, Clone, PartialEq, Eq)]
pub enum Step {
    Quit,
    Stay,
    Reset,
    Moves(Vec<Move>),
}

/// What a [`Step`] says.
#[verifier::ext_equal]
pub enum StepModel {
    Quit,
    Stay,
    Reset,
    Moves(Seq<Move>),
}

impl View for Step {
    type V = StepModel;

    open spec fn view(&self) -> StepModel {
        match *self {
            Step::Quit => StepModel::Quit,
            Step::Stay => StepModel::Stay,
            Step::Reset => StepModel::Reset,
            Step::Moves(moves) => StepModel::Moves(moves@),
        }
    }
}

/// Whether the derivative is shown.
pub open spec fn derivative_is_shown(panels: Panels, allowed: Allowed) -> bool {
    allowed.derivative && panels.show_derivative
}

/// Whether the spectrum is shown.
pub open spec fn fft_is_shown(panels: Panels, allowed: Allowed) -> bool {
    allowed.fft && panels.show_fft
}

/// Whether the derivative is shown.
pub fn shows_derivative(panels: Panels, allowed: Allowed) -> (shown: bool)
    ensures
        shown == derivative_is_shown(panels, allowed),
{
    allowed.derivative && panels.show_derivative
}

/// Whether the spectrum is shown.
pub fn shows_fft(panels: Panels, allowed: Allowed) -> (shown: bool)
    ensures
        shown == fft_is_shown(panels, allowed),
{
    allowed.fft && panels.show_fft
}

/// The changes of the ranges that run up and down: that of the plot, that of the derivative, and
/// that of the spectrum, if it is shown.
pub open spec fn y_moves(change: Change, with_fft: bool) -> Seq<Move> {
    let both = seq![
        Move { bounds: Bounds::MainY, change },
        Move { bounds: Bounds::DerivativeY, change },
    ];
    if with_fft {
        both.push(Move { bounds: Bounds::FftY, change })
    } else {
        both
    }
}

/// The change of the range that runs from left to right.
pub open spec fn x_move(change: Change) -> Seq<Move> {
    seq![Move { bounds: Bounds::MainX, change }]
}

/// What is done when the key is pressed.
pub open spec fn step_of(panels: Panels, allowed: Allowed, key: Key) -> StepModel {
    let fft = fft_is_shown(panels, allowed);
    match key {
        Key::Char('q') | Key::Esc | Key::Enter => StepModel::Quit,
        Key::Left | Key::Char('h') => StepModel::Moves(x_move(Change::PanBack)),
        Key::Right | Key::Char('l') => StepModel::Moves(x_move(Change::PanForward)),
        Key::Down | Key::Char('j') => StepModel::Moves(y_moves(Change::PanBack, fft)),
        Key::Up | Key::Char('k') => StepModel::Moves(y_moves(Change::PanForward, fft)),
        Key::Char('+') | Key::Char('=') => StepModel::Moves(
            x_move(Change::ZoomIn) + y_moves(Change::ZoomIn, fft),
        ),
        Key::Char('-') => StepModel::Moves(x_move(Change::ZoomOut) + y_moves(Change::ZoomOut, fft)),
        Key::Char('x') => StepModel::Moves(x_move(Change::ZoomIn)),
        Key::Char('X') => StepModel::Moves(x_move(Change::ZoomOut)),
        Key::Char('y') => StepModel::Moves(y_moves(Change::ZoomIn, fft)),
        Key::Char('Y') => StepModel::Moves(y_moves(Change::ZoomOut, fft)),
        Key::Char('0') => StepModel::Reset,
        _ => StepModel::Stay,
    }
}

/// The panels after the key is pressed.
pub open spec fn panels_after(panels: Panels, allowed: Allowed, key: Key) -> Panels {
    if key == Key::Char('d') && allowed.derivative {
        Panels { show_derivative: !panels.show_derivative, ..panels }
    } else if key == Key::Char('f') && allowed.fft {
        Panels { show_fft: !panels.show_fft, ..panels }
    } else {
        panels
    }
}

fn push_y_moves(moves: &mut Vec<Move>, change: Change, with_fft: bool)
    ensures
        final(moves)@ == old(moves)@ + y_moves(change, with_fft),
{
    moves.push(Move { bounds: Bounds::MainY, change });
    moves.push(Move { bounds: Bounds::DerivativeY, change });
    if with_fft {
        moves.push(Move { bounds: Bounds::FftY, change });
    }
    assert(moves@ == old(moves)@ + y_moves(change, with_fft));
}

fn move_x(change: Change) -> (step: Step)
    ensures
        step@ == StepModel::Moves(x_move(change)),
{
    let moves = vec![Move { bounds: Bounds::MainX, change }];
    assert(moves@ == x_move(change));
    Step::Moves(moves)
}

fn move_y(change: Change, with_fft: bool) -> (step: Step)
    ensures
        step@ == StepModel::Moves(y_moves(change, with_fft)),
{
    let mut moves: Vec<Move> = Vec::new();
    push_y_moves(&mut moves, change, with_fft);
    assert(moves@ == y_moves(change, with_fft));
    Step::Moves(moves)
}

fn move_both(change: Change, with_fft: bool) -> (step: Step)
    ensures
        step@ == StepModel::Moves(x_move(change) + y_moves(change, with_fft)),
{
    let mut moves = vec![Move { bounds: Bounds::MainX, change }];
    push_y_moves(&mut moves, change, with_fft);
    assert(moves@ == x_move(change) + y_moves(change, with_fft));
    Step::Moves(moves)
}

/// What is done when the key is pressed.
pub fn press(panels: &mut Panels, allowed: Allowed, key: Key) -> (step: Step)
    ensures
        step@ == step_of(*old(panels), allowed, key),
        *final(panels) == panels_after(*old(panels), allowed, key),
{
    let fft = shows_fft(*panels, allowed);
    match key {
        Key::Esc => Step::Quit,
        Key::Enter => Step::Quit,
        Key::Left => move_x(Change::PanBack),
        Key::Right => move_x(Change::PanForward),
        Key::Down => move_y(Change::PanBack, fft),
        Key::Up => move_y(Change::PanForward, fft),
        Key::Other => Step::Stay,
        Key::Char(c) => {
            if c == 'q' {
                Step::Quit
            } else if c == 'h' {
                move_x(Change::PanBack)
            } else if c == 'l' {
                move_x(Change::PanForward)
            } else if c == 'j' {
                move_y(Change::PanBack, fft)
            } else if c == 'k' {
                move_y(Change::PanForward, fft)
            } else if c == '+' || c == '=' {
                move_both(Change::ZoomIn, fft)
            } else if c == '-' {
                move_both(Change::ZoomOut, fft)
            } else if c == 'x' {
                move_x(Change::ZoomIn)
            } else if c == 'X' {
                move_x(Change::ZoomOut)
            } else if c == 'y' {
                move_y(Change::ZoomIn, fft)
            } else if c == 'Y' {
                move_y(Change::ZoomOut, fft)
            } else if c == '0' {
                Step::Reset
            } else {
                if c == 'd' && allowed.derivative {
                    panels.show_derivative = !panels.show_derivative;
                }
                if c == 'f' && allowed.fft {
                    panels.show_fft = !panels.show_fft;
                }
                Step::Stay
            }
        },
    }
}

/// Pressing the same key twice leaves the panels as they were.
pub proof fn same_key_twice_keeps_the_panels(panels: Panels, allowed: Allowed, key: Key)
    ensures
        panels_after(panels_after(panels, allowed, key), allowed, key) == panels,
{
}

/// The two panels are shown and hidden independently of each other.
pub proof fn panels_are_independent(panels: Panels, allowed: Allowed)
    ensures
        panels_after(panels, allowed, Key::Char('d')).show_fft == panels.show_fft,
        panels_after(panels, allowed, Key::Char('f')).show_derivative == panels.show_derivative,
        allowed.derivative && allowed.fft && !panels.show_derivative && !panels.show_fft ==> {
            let both = panels_after(
                panels_after(panels, allowed, Key::Char('d')),
                allowed,
                Key::Char('f'),
            );
            derivative_is_shown(both, allowed) && fft_is_shown(both, allowed)
        },
{
}

/// While the spectrum is not shown, no key changes its range.
pub proof fn hidden_fft_is_not_moved(panels: Panels, allowed: Allowed, key: Key)
    requires
        !fft_is_shown(panels, allowed),
    ensures
        step_of(panels, allowed, key) matches StepModel::Moves(moves) ==> forall|i: int|
            0 <= i < moves.len() ==> (#[trigger] moves[i]).bounds != Bounds::FftY,
{
}

/// How the height is shared among the plot and the panels, in percent.
pub open spec fn shares_of(show_derivative: bool, show_fft: bool) -> Seq<u16> {
    if show_derivative && show_fft {
        seq![34u16, 33u16, 33u16]
    } else if show_derivative || show_fft {
        seq![50u16, 50u16]
    } else {
        seq![100u16]
    }
}

/// How the height is shared among the plot and the panels, in percent.
pub fn panel_shares(show_derivative: bool, show_fft: bool) -> (shares: Vec<u16>)
    ensures
        shares@ == shares_of(show_derivative, show_fft),
{
    let shares: Vec<u16> = if show_derivative && show_fft {
        vec![34, 33, 33]
    } else if show_derivative || show_fft {
        vec![50, 50]
    } else {
        vec![100]
    };
    assert(shares@ == shares_of(show_derivative, show_fft));
    shares
}

/// A part of the screen that shows numbers.
#[derive(Debug, Clone, Copy, PartialEq, Eq, Structural)]
pub enum Panel {
    Main,
    Derivative,
    Fft,
}

/// The panels that are shown, from the top.
pub open spec fn panels_shown(show_derivative: bool, show_fft: bool) -> Seq<Panel> {
    let front = seq![Panel::Main];
    let derivative = if show_derivative {
        seq![Panel::Derivative]
    } else {
        Seq::empty()
    };
    let fft = if show_fft {
        seq![Panel::Fft]
    } else {
        Seq::empty()
    };
    front + derivative + fft
}

/// The panels that are shown, from the top.
pub fn shown_panels(show_derivative: bool, show_fft: bool) -> (panels: Vec<Panel>)
    ensures
        panels@ == panels_shown(show_derivative, show_fft),
{
    let mut panels: Vec<Panel> = vec![Panel::Main];
    if show_derivative {
        panels.push(Panel::Derivative);
    }
    if show_fft {
        panels.push(Panel::Fft);
    }
    assert(panels@ == panels_shown(show_derivative, show_fft));
    panels
}

/// Each panel that is shown has a share of the height, and the shares make up the whole.
pub proof fn each_panel_has_a_share(show_derivative: bool, show_fft: bool)
    ensures
        shares_of(show_derivative, show_fft).len() == panels_shown(
            show_derivative,
            show_fft,
        ).len(),
        total_share(shares_of(show_derivative, show_fft)) == 100,
{
    reveal_with_fuel(total_share, 4);
}

/// The sum of the shares.
pub open spec fn total_share(shares: Seq<u16>) -> int
    decreases shares.len(),
{
    if shares.len() == 0 {
        0
    } else {
        total_share(shares.drop_last()) + shares.last()
    }
}

/// How many lines the states take: one for each lane, and the frame.
pub fn state_height(lane_count: usize) -> (height: u16)
    requires
        lane_count <= u16::MAX - 2,
    ensures
        height == lane_count + 2,
{
    lane_count as u16 + 2
}

/// What the keys do, one by one.
pub open spec fn help_parts(allowed: Allowed) -> Seq<Seq<char>> {
    let front = seq!["q/Esc/Enter: exit"@];
    let derivative = if allowed.derivative {
        seq!["d: derivative panel"@]
    } else {
        Seq::empty()
    };
    let fft = if allowed.fft {
        seq!["f: fft panel"@]
    } else {
        Seq::empty()
    };
    front + derivative + fft + seq![
        "arrows/hjkl: pan"@,
        "+/-: zoom"@,
        "x/X: x zoom"@,
        "y/Y: y zoom"@,
        "0: reset"@,
    ]
}

/// What the keys do.
pub fn help_text(allowed: Allowed) -> (text: String)
    ensures
        text@ == joined(help_parts(allowed), "  "@),
{
    let mut parts: Vec<String> = Vec::new();
    parts.push("q/Esc/Enter: exit".to_owned());
    if allowed.derivative {
        parts.push("d: derivative panel".to_owned());
    }
    if allowed.fft {
        parts.push("f: fft panel".to_owned());
    }
    parts.push("arrows/hjkl: pan".to_owned());
    parts.push("+/-: zoom".to_owned());
    parts.push("x/X: x zoom".to_owned());
    parts.push("y/Y: y zoom".to_owned());
    parts.push("0: reset".to_owned());
    assert(texts(parts@) == help_parts(allowed));
    join(&parts, "  ")
}

/// The name of the spectrum of a series.
pub fn fft_name(name: &str) -> (text: String)
    ensures
        text@ == "fft("@ + name@ + ")"@,
{
    let mut text = "fft(".to_owned();
    text.append(name);
    text.append(")");
    text
}

/// The title above the states of an image.
pub fn state_caption(bands: &StateBands) -> (text: String)
    ensures
        text@ == "states (top to bottom): "@ + joined(lane_labels(bands@), " | "@),
{
    let labels = state_lane_labels(bands);
    let mut text = "states (top to bottom): ".to_owned();
    text.append(join(&labels, " | ").as_str());
    text
}

/// The color of a series in an image: red, green, blue.
pub open spec fn series_color(index: int) -> (u8, u8, u8) {
    let place = index % 6;
    if place == 0 {
        (0, 191, 255)
    } else if place == 1 {
        (255, 193, 7)
    } else if place == 2 {
        (46, 204, 113)
    } else if place == 3 {
        (231, 76, 60)
    } else if place == 4 {
        (155, 89, 182)
    } else {
        (52, 73, 94)
    }
}

/// The color of a series in an image: red, green, blue.
pub fn image_series_color(index: usize) -> (color: (u8, u8, u8))
    ensures
        color == series_color(index as int),
{
    let place: usize = index % 6;
    if place == 0 {
        (0, 191, 255)
    } else if place == 1 {
        (255, 193, 7)
    } else if place == 2 {
        (46, 204, 113)
    } else if place == 3 {
        (231, 76, 60)
    } else if place == 4 {
        (155, 89, 182)
    } else {
        (52, 73, 94)
    }
}

} // verus!
