//! The messages of the parse timeline: what the spinner says for each event.
use vstd::prelude::*;
use crate::value::ParseEvent;
use crate::text::{string_of, append_str};

verus! {

/// Whether an event opens or closes a step of the timeline, and the step's
/// name; events that the timeline does not show give nothing.
pub open spec fn timeline_step(ev: ParseEvent) -> Option<(bool, Seq<char>)> {
    match ev {
        ParseEvent::StartAttrSet => Some((true, "Attribut Set"@)),
        ParseEvent::EndAttrSet => Some((false, "Attribut Set"@)),
        ParseEvent::StartList => Some((true, "Liste"@)),
        ParseEvent::EndList => Some((false, "Liste"@)),
        ParseEvent::StartLetIn => Some((true, "LetIn"@)),
        ParseEvent::EndLetIn => Some((false, "LetIn"@)),
        ParseEvent::StartLambda => Some((true, "Lambda"@)),
        ParseEvent::EndLambda => Some((false, "Lambda"@)),
        ParseEvent::StartWith => Some((true, "With"@)),
        ParseEvent::EndWith => Some((false, "With"@)),
        ParseEvent::StartString => Some((true, "String"@)),
        ParseEvent::EndString => Some((false, "String"@)),
        ParseEvent::StartPath => Some((true, "Path"@)),
        ParseEvent::EndPath => Some((false, "Path"@)),
        ParseEvent::StartNumber => Some((true, "Number"@)),
        ParseEvent::EndNumber => Some((false, "Number"@)),
        ParseEvent::StartIdentifier => Some((true, "Identifier"@)),
        ParseEvent::EndIdentifier => Some((false, "Identifier"@)),
        ParseEvent::StartWhitespace => Some((true, "Whitespace"@)),
        ParseEvent::EndWhitespace => Some((false, "Whitespace"@)),
        ParseEvent::StartValue => Some((true, "Value"@)),
        ParseEvent::EndValue => Some((false, "Value"@)),
        _ => None,
    }
}

/// The spinner's message for an event: `Öffne` or `Schließe`, then the
/// step's name.
pub open spec fn timeline_text(ev: ParseEvent) -> Option<Seq<char>> {
    match timeline_step(ev) {
        Some((open, name)) => Some(
            (if open {
                "Öffne"@
            } else {
                "Schließe"@
            }) + " "@ + name,
        ),
        None => None,
    }
}

/// The name of a step of the timeline, if the event belongs to one.
#[verifier::rlimit(30)]
fn timeline_step_of(ev: &ParseEvent) -> (r: Option<(bool, &'static str)>)
    ensures
        match r {
            Some((open, name)) => timeline_step(*ev) == Some((open, name@)),
            None => timeline_step(*ev) is None,
        },
{
    match ev {
        ParseEvent::StartAttrSet => Some((true, "Attribut Set")),
        ParseEvent::EndAttrSet => Some((false, "Attribut Set")),
        ParseEvent::StartList => Some((true, "Liste")),
        ParseEvent::EndList => Some((false, "Liste")),
        ParseEvent::StartLetIn => Some((true, "LetIn")),
        ParseEvent::EndLetIn => Some((false, "LetIn")),
        ParseEvent::StartLambda => Some((true, "Lambda")),
        ParseEvent::EndLambda => Some((false, "Lambda")),
        ParseEvent::StartWith => Some((true, "With")),
        ParseEvent::EndWith => Some((false, "With")),
        ParseEvent::StartString => Some((true, "String")),
        ParseEvent::EndString => Some((false, "String")),
        ParseEvent::StartPath => Some((true, "Path")),
        ParseEvent::EndPath => Some((false, "Path")),
        ParseEvent::StartNumber => Some((true, "Number")),
        ParseEvent::EndNumber => Some((false, "Number")),
        ParseEvent::StartIdentifier => Some((true, "Identifier")),
        ParseEvent::EndIdentifier => Some((false, "Identifier")),
        ParseEvent::StartWhitespace => Some((true, "Whitespace")),
        ParseEvent::EndWhitespace => Some((false, "Whitespace")),
        ParseEvent::StartValue => Some((true, "Value")),
        ParseEvent::EndValue => Some((false, "Value")),
        _ => None,
    }
}

/// The spinner's message for an event (see `timeline_text`).
pub fn timeline_message(ev: &ParseEvent) -> (r: Option<String>)
    ensures
        match r {
            Some(m) => timeline_text(*ev) == Some(m@),
            None => timeline_text(*ev) is None,
        },
{
    match timeline_step_of(ev) {
        Some((open, name)) => {
            let mut m = if open {
                string_of("Öffne")
            } else {
                string_of("Schließe")
            };
            append_str(&mut m, " ");
            append_str(&mut m, name);
            Some(m)
        },
        None => None,
    }
}

} // verus!
