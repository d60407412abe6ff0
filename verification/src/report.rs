//! The messages for the author of a shader: one line for each error and
//! each finding, with the place it is about in front where there is one.

use crate::graph::{place_views, LoadError};
use crate::path::{Location, LocationView};
use crate::text::append_bytes;
use crate::validate::{Diagnostic, DiagnosticView};
use vstd::prelude::*;
use vstd::string::StringSliceAdditionalSpecFns;

verus! {

/// The decimal digits of `n`.
pub open spec fn decimal(n: nat) -> Seq<u8>
    decreases n,
{
    if n < 10 {
        seq![(48 + n) as u8]
    } else {
        decimal(n / 10).push((48 + n % 10) as u8)
    }
}

/// A place as `module:line:column`.
pub open spec fn place_text(place: LocationView) -> Seq<u8> {
    place.module + ":".spec_bytes() + decimal(place.line) + ":".spec_bytes() + decimal(place.column)
}

/// The first `n` places of a cycle, each followed by an arrow.
pub open spec fn ring_text(places: Seq<LocationView>, n: nat) -> Seq<u8>
    decreases n,
{
    if n == 0 {
        Seq::empty()
    } else {
        ring_text(places, (n - 1) as nat) + place_text(places[n - 1]) + " -> ".spec_bytes()
    }
}

/// The message for an error of the loader.
pub open spec fn load_error_text(error: LoadError) -> Seq<u8> {
    match error {
        LoadError::UnresolvedPath { importer, reference, at } => (match at {
            Some(place) => place_text(place@),
            None => importer@,
        }) + ": cannot resolve `".spec_bytes() + reference@ + "`".spec_bytes(),
        LoadError::MalformedDirective { module, line, column } => module@ + ":".spec_bytes()
            + decimal(line as nat) + ":".spec_bytes() + decimal(column as nat)
            + ": malformed directive".spec_bytes(),
        LoadError::ImportCycle { cycle } => "import cycle: ".spec_bytes() + ring_text(
            place_views(cycle@),
            cycle@.len(),
        ) + if cycle@.len() > 0 {
            cycle@[0].module@
        } else {
            Seq::empty()
        },
    }
}

/// The message for a finding of the validator.
pub open spec fn diagnostic_text(found: DiagnosticView) -> Seq<u8> {
    match found {
        DiagnosticView::DuplicateExport { name, first, second } => place_text(second)
            + ": `".spec_bytes() + name + "` is exported twice, first at ".spec_bytes() + place_text(
            first,
        ),
        DiagnosticView::UndeclaredImport { name, target, at } => place_text(at) + ": `".spec_bytes()
            + name + "` is not exported by ".spec_bytes() + target,
        DiagnosticView::UnderlyingLanguageError { message, place } => match place {
            Some(at) => place_text(at) + ": ".spec_bytes() + message,
            None => message,
        },
    }
}

/// Appends the bytes of `text`.
fn append_text(out: &mut Vec<u8>, text: &str)
    ensures
        final(out)@ == old(out)@ + text.spec_bytes(),
{
    let bytes = text.as_bytes();
    let mut k: usize = 0;
    while k < bytes.len()
        invariant
            k <= bytes.len(),
            bytes@ == text.spec_bytes(),
            out@ == old(out)@ + bytes@.take(k as int),
        decreases bytes.len() - k,
    {
        out.push(bytes[k]);
        assert(bytes@.take(k + 1) =~= bytes@.take(k as int).push(bytes@[k as int]));
        assert(out@ =~= old(out)@ + bytes@.take(k + 1));
        k += 1;
    }
    assert(bytes@.take(bytes.len() as int) =~= bytes@);
}

/// Appends the decimal digits of `n`.
pub fn append_decimal(out: &mut Vec<u8>, n: usize)
    ensures
        final(out)@ == old(out)@ + decimal(n as nat),
{
    let mut digits: Vec<u8> = Vec::new();
    let mut rest: usize = n;
    assert(decimal(n as nat) =~= decimal(rest as nat) + digits@.reverse());
    while rest >= 10
        invariant
            decimal(n as nat) == decimal(rest as nat) + digits@.reverse(),
        decreases rest,
    {
        let digit = (48 + rest % 10) as u8;
        let ghost before = digits@;
        digits.push(digit);
        assert(digits@.reverse() =~= seq![digit] + before.reverse());
        assert(decimal(rest as nat) == decimal((rest / 10) as nat).push(digit));
        assert(decimal(n as nat) =~= decimal((rest / 10) as nat) + digits@.reverse());
        rest = rest / 10;
    }
    out.push((48 + rest) as u8);
    let mut k: usize = digits.len();
    while k > 0
        invariant
            k <= digits.len(),
            out@ == old(out)@ + decimal(rest as nat) + digits@.reverse().take(digits.len() - k),
        decreases k,
    {
        k -= 1;
        out.push(digits[k]);
        assert(digits@.reverse().take(digits.len() - k) =~= digits@.reverse().take(
            digits.len() - k - 1,
        ).push(digits@[k as int]));
        assert(out@ =~= old(out)@ + decimal(rest as nat) + digits@.reverse().take(digits.len() - k));
    }
    assert(digits@.reverse().take(digits.len() as int) =~= digits@.reverse());
    assert(out@ =~= old(out)@ + decimal(n as nat));
}

/// Appends a place as `module:line:column`.
fn append_place(out: &mut Vec<u8>, place: &Location)
    ensures
        final(out)@ == old(out)@ + place_text(place@),
{
    append_bytes(out, place.module.as_bytes());
    append_text(out, ":");
    append_decimal(out, place.line);
    append_text(out, ":");
    append_decimal(out, place.column);
    assert(out@ =~= old(out)@ + place_text(place@));
}

/// The message for an error of the loader.
pub fn describe_load_error(error: &LoadError) -> (message: Vec<u8>)
    ensures
        message@ == load_error_text(*error),
{
    let mut out: Vec<u8> = Vec::new();
    match error {
        LoadError::UnresolvedPath { importer, reference, at } => {
            match at {
                Some(place) => {
                    append_place(&mut out, place);
                },
                None => {
                    append_bytes(&mut out, importer.as_bytes());
                },
            }
            append_text(&mut out, ": cannot resolve `");
            append_bytes(&mut out, reference);
            append_text(&mut out, "`");
            assert(out@ =~= load_error_text(*error));
        },
        LoadError::MalformedDirective { module, line, column } => {
            append_bytes(&mut out, module.as_bytes());
            append_text(&mut out, ":");
            append_decimal(&mut out, *line);
            append_text(&mut out, ":");
            append_decimal(&mut out, *column);
            append_text(&mut out, ": malformed directive");
            assert(out@ =~= load_error_text(*error));
        },
        LoadError::ImportCycle { cycle } => {
            append_text(&mut out, "import cycle: ");
            let ghost head = out@;
            let ghost ids = place_views(cycle@);
            let mut i: usize = 0;
            assert(out@ =~= head + ring_text(ids, 0));
            while i < cycle.len()
                invariant
                    i <= cycle.len(),
                    ids == place_views(cycle@),
                    out@ == head + ring_text(ids, i as nat),
                decreases cycle.len() - i,
            {
                append_place(&mut out, &cycle[i]);
                append_text(&mut out, " -> ");
                assert(ids[i as int] == cycle@[i as int]@);
                assert(out@ =~= head + ring_text(ids, (i + 1) as nat));
                i += 1;
            }
            if cycle.len() > 0 {
                append_bytes(&mut out, cycle[0].module.as_bytes());
            }
            assert(out@ =~= load_error_text(*error));
        },
    }
    out
}

/// The message for a finding of the validator.
pub fn describe(found: &Diagnostic) -> (message: Vec<u8>)
    ensures
        message@ == diagnostic_text(found@),
{
    let mut out: Vec<u8> = Vec::new();
    match found {
        Diagnostic::DuplicateExport { name, first, second } => {
            append_place(&mut out, second);
            append_text(&mut out, ": `");
            append_bytes(&mut out, name);
            append_text(&mut out, "` is exported twice, first at ");
            append_place(&mut out, first);
            assert(out@ =~= diagnostic_text(found@));
        },
        Diagnostic::UndeclaredImport { name, target, at } => {
            append_place(&mut out, at);
            append_text(&mut out, ": `");
            append_bytes(&mut out, name);
            append_text(&mut out, "` is not exported by ");
            append_bytes(&mut out, target.as_bytes());
            assert(out@ =~= diagnostic_text(found@));
        },
        Diagnostic::UnderlyingLanguageError { message, place } => {
            match place {
                Some(at) => {
                    append_place(&mut out, at);
                    append_text(&mut out, ": ");
                },
                None => {},
            }
            append_bytes(&mut out, message);
            assert(out@ =~= diagnostic_text(found@));
        },
    }
    out
}

} // verus!
