//! The battery panel: how full the battery is and what it is doing.
use crate::decimal::{parse_u32, parse_u32_range};
use crate::text::{chars_of, same_text};
use scraper::{Html, Selector};
use vstd::prelude::*;
use vstd::string::*;

verus! {

/// What the battery is doing.
#[derive(Debug, Eq, PartialEq, Structural, Clone, Copy)]
pub enum State {
    Normal,
    Charge,
    Discharge,
}

/// The battery as the panel shows it.
#[derive(Debug, Eq, PartialEq, Structural)]
pub struct Battery {
    pub state: State,
    /// The charge that is left, in percent.
    pub remaining: u32,
}

/// The part of the panel that could not be read.
#[derive(Debug, Eq, PartialEq, Structural, Clone, Copy)]
pub enum ParseError {
    /// No element shows the remaining charge, or what it shows is no number.
    Remaining,
    /// No icon shows the state, or its description is not a known one.
    State,
}

/// The selector of the element that shows the remaining charge.
pub open spec fn remaining_selector() -> Seq<char> {
    "font"@
}

/// The selector of the icon that shows the state.
pub open spec fn state_selector() -> Seq<char> {
    "img.battery_bak"@
}

/// The attribute of the icon that describes the state.
pub open spec fn state_attribute() -> Seq<char> {
    "alt"@
}

/// The inner HTML of the first element that `scraper` selects with the CSS
/// selector `selector` in `fragment`, parsed as an HTML fragment. `None`
/// where `selector` is no valid selector or selects nothing.
pub uninterp spec fn first_inner_html(fragment: Seq<char>, selector: Seq<char>) -> Option<
    Seq<char>,
>;

/// The value of the attribute `name` of the first element that `scraper`
/// selects with the CSS selector `selector` in `fragment`, parsed as an HTML
/// fragment. `None` where `selector` is no valid selector or selects nothing,
/// and where that element has no such attribute.
pub uninterp spec fn first_attr(
    fragment: Seq<char>,
    selector: Seq<char>,
    name: Seq<char>,
) -> Option<Seq<char>>;

/// The characters of an optional text.
pub open spec fn text_view(text: Option<String>) -> Option<Seq<char>> {
    match text {
        Some(s) => Some(s@),
        None => None,
    }
}

/// Calls `scraper::Html::parse_fragment` on `fragment`,
/// `scraper::Selector::parse` on `selector` and `scraper::Html::select` on
/// the two, and takes `scraper::ElementRef::inner_html` of the first element
/// that comes out. Nothing is proved of this: the contract only gives the
/// result its name, `first_inner_html`.
#[verifier::external_body]
fn select_inner_html(fragment: &str, selector: &str) -> (r: Option<String>)
    ensures
        text_view(r) == first_inner_html(fragment@, selector@),
{
    let document = Html::parse_fragment(fragment);
    let parsed = match Selector::parse(selector) {
        Ok(parsed) => parsed,
        Err(_) => return None,
    };
    match document.select(&parsed).next() {
        Some(element) => Some(element.inner_html()),
        None => None,
    }
}

/// Calls `scraper::Html::parse_fragment` on `fragment`,
/// `scraper::Selector::parse` on `selector` and `scraper::Html::select` on
/// the two, and takes `scraper::ElementRef::attr` of the first element that
/// comes out. Nothing is proved of this: the contract only gives the result
/// its name, `first_attr`.
#[verifier::external_body]
fn select_attr(fragment: &str, selector: &str, name: &str) -> (r: Option<String>)
    ensures
        text_view(r) == first_attr(fragment@, selector@, name@),
{
    let document = Html::parse_fragment(fragment);
    let parsed = match Selector::parse(selector) {
        Ok(parsed) => parsed,
        Err(_) => return None,
    };
    match document.select(&parsed).next() {
        Some(element) => match element.attr(name) {
            Some(value) => Some(value.to_string()),
            None => None,
        },
        None => None,
    }
}

impl State {
    /// The state that an icon's description stands for.
    pub open spec fn from_alt(alt: Seq<char>) -> Option<State> {
        if alt == "pts_battery_empty"@ {
            Some(State::Normal)
        } else if alt == "pts_battery_discharge"@ {
            Some(State::Discharge)
        } else if alt == "pts_battery_charge"@ {
            Some(State::Charge)
        } else {
            None
        }
    }

    /// Looks an icon's description up among the known ones.
    pub fn try_from_alt(alt: &str) -> (r: Option<State>)
        ensures
            r == State::from_alt(alt@),
    {
        if same_text(alt, "pts_battery_empty") {
            Some(State::Normal)
        } else if same_text(alt, "pts_battery_discharge") {
            Some(State::Discharge)
        } else if same_text(alt, "pts_battery_charge") {
            Some(State::Charge)
        } else {
            None
        }
    }
}

/// The battery that a panel shows, given the text of its charge display and
/// the description of its state icon, each as far as it was found. The charge
/// is looked at first.
pub open spec fn battery_of(remaining: Option<Seq<char>>, alt: Option<Seq<char>>) -> Result<
    Battery,
    ParseError,
> {
    match remaining {
        None => Err(ParseError::Remaining),
        Some(text) => match parse_u32(text) {
            None => Err(ParseError::Remaining),
            Some(percent) => match alt {
                None => Err(ParseError::State),
                Some(description) => match State::from_alt(description) {
                    None => Err(ParseError::State),
                    Some(state) => Ok(Battery { state, remaining: percent }),
                },
            },
        },
    }
}

impl Battery {
    /// Builds the battery from what was found in the panel: the text of the
    /// charge display and the description of the state icon.
    pub fn from_parts(remaining: Option<String>, alt: Option<String>) -> (r: Result<
        Battery,
        ParseError,
    >)
        ensures
            r == battery_of(text_view(remaining), text_view(alt)),
    {
        let text: String = match remaining {
            Some(text) => text,
            None => {
                return Err(ParseError::Remaining);
            },
        };
        let buf = chars_of(text.as_str());
        assert(buf@.subrange(0, buf.len() as int) =~= text@);
        let percent: u32 = match parse_u32_range(&buf, 0, buf.len()) {
            Some(percent) => percent,
            None => {
                return Err(ParseError::Remaining);
            },
        };
        let description: String = match alt {
            Some(description) => description,
            None => {
                return Err(ParseError::State);
            },
        };
        match State::try_from_alt(description.as_str()) {
            Some(state) => Ok(Battery { state, remaining: percent }),
            None => Err(ParseError::State),
        }
    }

    /// Reads the battery from the panel's fragment: the charge from the first
    /// `font` element, the state from the description of the first
    /// `img.battery_bak` icon.
    pub fn from_partial_html(html: &str) -> (r: Result<Battery, ParseError>)
        ensures
            r == battery_of(
                first_inner_html(html@, remaining_selector()),
                first_attr(html@, state_selector(), state_attribute()),
            ),
    {
        let remaining = select_inner_html(html, "font");
        let alt = select_attr(html, "img.battery_bak", "alt");
        Battery::from_parts(remaining, alt)
    }
}

} // verus!
