//! Custom public profile fields, written one `Label: Value` per line. There
//! is no fixed platform schema: any label is allowed once, compared without
//! regard to ASCII case, within the byte and count limits the profile
//! format sets.
use crate::records::{find_char, lemma_find_char, line_ranges, lines, sub_chars};
use crate::text::{ascii_lower, chars_of, decimal, push_chars, push_decimal, string_of, to_ascii_lower, trim, trim_bounds};
use vstd::prelude::*;
use vstd::string::StringExecFns;
use vstd::utf8::encode_utf8;

verus! {

/// One custom field of a public profile.
#[derive(Debug, Clone, PartialEq, Eq)]
pub struct PublicProfileField {
    pub label: String,
    pub value: String,
}

/// The limits the profile format sets on custom fields.
#[derive(Debug, Clone, Copy, PartialEq, Eq)]
pub struct ProfileFieldLimits {
    pub max_fields: usize,
    pub max_label_bytes: usize,
    pub max_value_bytes: usize,
}

/// Two labels are the same label: equal once ASCII letters are folded to
/// lower case.
pub open spec fn same_label(a: Seq<char>, b: Seq<char>) -> bool {
    a.len() == b.len() && forall|k: int| 0 <= k < a.len() ==> ascii_lower(#[trigger] a[k]) == ascii_lower(b[k])
}

/// What one line does to the fields read so far: a blank line nothing; a
/// line without a colon, an empty label or value, an over-long label or
/// value, or a label already used refuses the text; otherwise the trimmed
/// label and value join the fields.
pub open spec fn field_step(
    fields: Seq<(Seq<char>, Seq<char>)>,
    line: Seq<char>,
    limits: ProfileFieldLimits,
) -> Result<Seq<(Seq<char>, Seq<char>)>, Seq<char>> {
    let t = trim(line);
    if t.len() == 0 {
        Ok(fields)
    } else {
        match find_char(t, ':') {
            None => Err("custom field must use Label: Value — "@ + t),
            Some(i) => {
                let label = trim(t.take(i as int));
                let value = trim(t.skip(i + 1 as int));
                if label.len() == 0 || value.len() == 0 {
                    Err("custom profile labels and values cannot be empty"@)
                } else if encode_utf8(label).len() > limits.max_label_bytes {
                    Err(
                        "custom profile label exceeds "@ + decimal(limits.max_label_bytes as nat)
                            + " bytes: "@ + label,
                    )
                } else if encode_utf8(value).len() > limits.max_value_bytes {
                    Err(
                        "custom profile value for "@ + label + " exceeds "@ + decimal(
                            limits.max_value_bytes as nat,
                        ) + " bytes"@,
                    )
                } else if exists|j: int| 0 <= j < fields.len() && same_label(#[trigger] fields[j].0, label) {
                    Err("duplicate custom profile field: "@ + label)
                } else {
                    Ok(fields.push((label, value)))
                }
            },
        }
    }
}

/// Reads the lines in turn, stopping at the first refusal.
pub open spec fn field_steps(
    fields: Seq<(Seq<char>, Seq<char>)>,
    ls: Seq<Seq<char>>,
    limits: ProfileFieldLimits,
) -> Result<Seq<(Seq<char>, Seq<char>)>, Seq<char>>
    decreases ls.len(),
{
    if ls.len() == 0 {
        Ok(fields)
    } else {
        match field_step(fields, ls[0], limits) {
            Err(m) => Err(m),
            Ok(next) => field_steps(next, ls.drop_first(), limits),
        }
    }
}

/// What parsing the text gives: the fields in order, or the first
/// refusal; more fields than the limit are refused at the end.
pub open spec fn fields_outcome(text: Seq<char>, limits: ProfileFieldLimits) -> Result<
    Seq<(Seq<char>, Seq<char>)>,
    Seq<char>,
> {
    match field_steps(Seq::empty(), lines(text), limits) {
        Err(m) => Err(m),
        Ok(fields) => if fields.len() > limits.max_fields {
            Err(
                "at most "@ + decimal(limits.max_fields as nat)
                    + " custom public profile fields are supported"@,
            )
        } else {
            Ok(fields)
        },
    }
}

/// The label and value of each field.
pub open spec fn field_texts(v: Seq<PublicProfileField>) -> Seq<(Seq<char>, Seq<char>)> {
    Seq::new(v.len(), |i: int| (v[i].label@, v[i].value@))
}

fn same_label_exec(a: &Vec<char>, b: &Vec<char>) -> (r: bool)
    ensures
        r == same_label(a@, b@),
{
    if a.len() != b.len() {
        return false;
    }
    let mut k: usize = 0;
    while k < a.len()
        invariant
            a@.len() == b@.len(),
            k <= a@.len(),
            forall|t: int| 0 <= t < k ==> ascii_lower(#[trigger] a@[t]) == ascii_lower(b@[t]),
        decreases a@.len() - k,
    {
        if to_ascii_lower(a[k]) != to_ascii_lower(b[k]) {
            return false;
        }
        k = k + 1;
    }
    true
}

/// Whether one of `labels` is the same label as `label`.
fn has_label(labels: &Vec<Vec<char>>, label: &Vec<char>) -> (r: bool)
    ensures
        r == exists|j: int| 0 <= j < labels@.len() && same_label(#[trigger] labels@[j]@, label@),
{
    let mut j: usize = 0;
    while j < labels.len()
        invariant
            j <= labels@.len(),
            forall|k: int| 0 <= k < j ==> !same_label(#[trigger] labels@[k]@, label@),
        decreases labels@.len() - j,
    {
        if same_label_exec(&labels[j], label) {
            return true;
        }
        j = j + 1;
    }
    false
}

/// The trimmed characters of `v[a..b]`.
fn trimmed_chars(v: &Vec<char>, a: usize, b: usize) -> (r: Vec<char>)
    requires
        a <= b <= v@.len(),
    ensures
        r@ == trim(v@.subrange(a as int, b as int)),
{
    let part = sub_chars(v, a, b);
    let (x, y) = trim_bounds(&part);
    sub_chars(&part, x, y)
}

/// Applies one line.
fn apply_field_line(
    fields: &mut Vec<PublicProfileField>,
    labels: &mut Vec<Vec<char>>,
    line: &Vec<char>,
    limits: ProfileFieldLimits,
) -> (r: Result<(), String>)
    requires
        old(labels)@.len() == old(fields)@.len(),
        forall|j: int| 0 <= j < old(labels)@.len() ==> (#[trigger] old(labels)@[j])@ == old(fields)@[j].label@,
    ensures
        match field_step(field_texts(old(fields)@), line@, limits) {
            Ok(next) => r is Ok && field_texts(final(fields)@) == next && final(labels)@.len()
                == final(fields)@.len() && forall|j: int|
                0 <= j < final(labels)@.len() ==> (#[trigger] final(labels)@[j])@
                    == final(fields)@[j].label@,
            Err(m) => r matches Err(e) && e@ == m,
        },
{
    let t = trimmed_chars(line, 0, line.len());
    assert(line@.subrange(0, line@.len() as int) =~= line@);
    if t.len() == 0 {
        return Ok(());
    }
    let mut colon: usize = 0;
    while colon < t.len() && t[colon] != ':'
        invariant
            colon <= t@.len(),
            forall|k: int| 0 <= k < colon ==> #[trigger] t@[k] != ':',
        decreases t@.len() - colon,
    {
        colon = colon + 1;
    }
    proof {
        crate::records::lemma_find_char_at(t@, ':', colon as int);
    }
    if colon == t.len() {
        let mut m = String::from_str("custom field must use Label: Value — ");
        push_chars(&mut m, t.as_slice());
        return Err(m);
    }
    let label = trimmed_chars(&t, 0, colon);
    let value = trimmed_chars(&t, colon + 1, t.len());
    proof {
        assert(t@.subrange(0, colon as int) =~= t@.take(colon as int));
        assert(t@.subrange(colon + 1, t@.len() as int) =~= t@.skip(colon + 1));
    }
    if label.len() == 0 || value.len() == 0 {
        return Err(String::from_str("custom profile labels and values cannot be empty"));
    }
    let label_text = string_of(label.as_slice());
    let value_text = string_of(value.as_slice());
    if label_text.as_str().as_bytes().len() > limits.max_label_bytes {
        let mut m = String::from_str("custom profile label exceeds ");
        push_decimal(&mut m, limits.max_label_bytes as u128);
        m.append(" bytes: ");
        push_chars(&mut m, label.as_slice());
        return Err(m);
    }
    if value_text.as_str().as_bytes().len() > limits.max_value_bytes {
        let mut m = String::from_str("custom profile value for ");
        push_chars(&mut m, label.as_slice());
        m.append(" exceeds ");
        push_decimal(&mut m, limits.max_value_bytes as u128);
        m.append(" bytes");
        return Err(m);
    }
    let ghost texts = field_texts(fields@);
    if has_label(labels, &label) {
        proof {
            let j = choose|j: int| 0 <= j < labels@.len() && same_label(#[trigger] labels@[j]@, label@);
            assert(texts[j].0 == labels@[j]@);
        }
        let mut m = String::from_str("duplicate custom profile field: ");
        push_chars(&mut m, label.as_slice());
        return Err(m);
    }
    proof {
        assert forall|j: int| 0 <= j < texts.len() implies !same_label(#[trigger] texts[j].0, label@) by {
            assert(texts[j].0 == labels@[j]@);
        }
    }
    let ghost before = fields@;
    let ghost before_labels = labels@;
    fields.push(PublicProfileField { label: label_text, value: value_text });
    labels.push(label);
    proof {
        assert(field_texts(fields@) =~= field_texts(before).push((label@, value@)));
        assert forall|k: int| 0 <= k < labels@.len() implies (#[trigger] labels@[k])@ == fields@[k].label@ by {
            if k < before_labels.len() {
                assert(labels@[k] == before_labels[k]);
                assert(fields@[k] == before[k]);
            }
        }
    }
    Ok(())
}

/// Parse custom profile fields, one `Label: Value` per line; blank lines
/// are skipped, and the first bad line refuses the whole text.
pub fn parse_profile_fields(text: &str, limits: ProfileFieldLimits) -> (r: Result<
    Vec<PublicProfileField>,
    String,
>)
    ensures
        match fields_outcome(text@, limits) {
            Ok(fields) => r matches Ok(v) && field_texts(v@) == fields,
            Err(m) => r matches Err(e) && e@ == m,
        },
{
    let chars = chars_of(text);
    let ranges = line_ranges(&chars);
    let ghost ls = lines(chars@);
    let mut fields: Vec<PublicProfileField> = Vec::new();
    let mut labels: Vec<Vec<char>> = Vec::new();
    let mut k: usize = 0;
    assert(field_texts(fields@) =~= Seq::<(Seq<char>, Seq<char>)>::empty());
    assert(ls.skip(0) =~= ls);
    while k < ranges.len()
        invariant
            k <= ranges@.len(),
            ranges@.len() == ls.len(),
            ls == lines(chars@),
            chars@ == text@,
            forall|j: int|
                0 <= j < ranges@.len() ==> (#[trigger] ranges@[j]).0 <= ranges@[j].1
                    <= chars@.len() && chars@.subrange(ranges@[j].0 as int, ranges@[j].1 as int)
                    == ls[j],
            labels@.len() == fields@.len(),
            forall|j: int| 0 <= j < labels@.len() ==> (#[trigger] labels@[j])@ == fields@[j].label@,
            field_steps(Seq::empty(), ls, limits) == field_steps(
                field_texts(fields@),
                ls.skip(k as int),
                limits,
            ),
        decreases ranges@.len() - k,
    {
        let ghost rest = ls.skip(k as int);
        proof {
            assert(ranges@[k as int].0 <= ranges@[k as int].1 <= chars@.len());
            assert(rest[0] == ls[k as int]);
            assert(rest.drop_first() =~= ls.skip(k + 1));
        }
        let line = sub_chars(&chars, ranges[k].0, ranges[k].1);
        match apply_field_line(&mut fields, &mut labels, &line, limits) {
            Ok(()) => {},
            Err(e) => {
                return Err(e);
            },
        }
        k = k + 1;
    }
    assert(ls.skip(k as int).len() == 0);
    if fields.len() > limits.max_fields {
        let mut m = String::from_str("at most ");
        push_decimal(&mut m, limits.max_fields as u128);
        m.append(" custom public profile fields are supported");
        return Err(m);
    }
    Ok(fields)
}

} // verus!
