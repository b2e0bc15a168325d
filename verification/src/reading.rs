//! How the machine reads the pieces that a well-formed text is made of.

use crate::document::{
    field_is_sound, fields_are_sound, is_blank, is_escaped_at, is_numeric, is_quotable, is_sound,
    items_are_sound, leaves, leaves_of_fields, leaves_of_items, padded_is_sound, render,
    render_fields, render_items, render_name, render_padded, Document, Field, Fields, Items, Leaf,
    Padded,
};
use crate::machine::{
    bumped, end_of_value_step, ends_number, literal_fals, literal_false, literal_null,
    literal_true, scan_from, step, Config, Event, Mode, Next, Step,
};
use crate::text::{byte_offset, is_white_space};
use crate::types::{Failure, KeyView, ParseOptions, ValueView};
use vstd::prelude::*;

verus! {

/// What the callback sees of an event.
pub open spec fn leaf_of(event: Event) -> Leaf {
    Leaf { keys: event.keys, value: event.value }
}

/// What the callback sees of a sequence of events.
pub open spec fn leaves_seen(events: Seq<Event>) -> Seq<Leaf> {
    Seq::new(events.len(), |k: int| leaf_of(events[k]))
}

/// The scan from `i` in state `from` hands out `found` and then goes on as
/// the scan from `j` in state `to` does.
pub open spec fn leads(
    text: Seq<char>,
    options: ParseOptions,
    i: int,
    from: Config,
    found: Seq<Leaf>,
    j: int,
    to: Config,
) -> bool {
    let before = scan_from(text, options, i, from);
    let after = scan_from(text, options, j, to);
    &&& leaves_seen(before.events) == found + leaves_seen(after.events)
    &&& before.result == after.result
}

/// `piece` stands in `text` at index `i`.
pub open spec fn occurs(text: Seq<char>, i: int, piece: Seq<char>) -> bool {
    &&& 0 <= i
    &&& i + piece.len() <= text.len()
    &&& forall|k: int| 0 <= k < piece.len() ==> text[i + k] == #[trigger] piece[k]
}

pub proof fn lemma_occurs_split(text: Seq<char>, i: int, a: Seq<char>, b: Seq<char>)
    requires
        occurs(text, i, a + b),
    ensures
        occurs(text, i, a),
        occurs(text, i + a.len(), b),
{
    let whole = a + b;
    assert forall|k: int| 0 <= k < a.len() implies text[i + k] == #[trigger] a[k] by {
        assert(whole[k] == a[k]);
    }
    assert forall|k: int| 0 <= k < b.len() implies text[i + a.len() + k] == #[trigger] b[k] by {
        assert(whole[a.len() + k] == b[k]);
    }
}

pub proof fn lemma_leads_nowhere(text: Seq<char>, options: ParseOptions, i: int, cfg: Config)
    ensures
        leads(text, options, i, cfg, Seq::empty(), i, cfg),
{
    let trace = scan_from(text, options, i, cfg);
    assert(Seq::<Leaf>::empty() + leaves_seen(trace.events) =~= leaves_seen(trace.events));
}

pub proof fn lemma_leads_on(
    text: Seq<char>,
    options: ParseOptions,
    i: int,
    from: Config,
    first: Seq<Leaf>,
    j: int,
    via: Config,
    second: Seq<Leaf>,
    k: int,
    to: Config,
)
    requires
        leads(text, options, i, from, first, j, via),
        leads(text, options, j, via, second, k, to),
    ensures
        leads(text, options, i, from, first + second, k, to),
{
    let last = leaves_seen(scan_from(text, options, k, to).events);
    assert(first + (second + last) =~= (first + second) + last);
}

/// A character that hands out nothing leads to the next character.
pub proof fn lemma_leads_advance(
    text: Seq<char>,
    options: ParseOptions,
    i: int,
    from: Config,
    to: Config,
)
    requires
        0 <= i < text.len(),
        step(text, options, i, from) == Step::Advance(to),
    ensures
        leads(text, options, i, from, Seq::empty(), i + 1, to),
{
    lemma_leads_nowhere(text, options, i + 1, to);
}

/// A character that completes a value hands it out and leads to the next
/// character.
pub proof fn lemma_leads_emit(
    text: Seq<char>,
    options: ParseOptions,
    i: int,
    from: Config,
    value: ValueView,
    to: Config,
)
    requires
        0 <= i < text.len(),
        step(text, options, i, from) matches Step::Emit { value: v, then, .. } && v == value
            && then == Next::Go(to),
    ensures
        leads(text, options, i, from, seq![Leaf { keys: from.chain, value }], i + 1, to),
{
    let before = scan_from(text, options, i, from);
    let after = scan_from(text, options, i + 1, to);
    assert(leaves_seen(before.events) =~= seq![Leaf { keys: from.chain, value }] + leaves_seen(
        after.events,
    ));
}

/// The modes in which white space is passed over.
pub open spec fn passes_blank(mode: Mode) -> bool {
    mode is ExpectingValue || mode is InObject || mode is Colon || mode is EndOfValue
}

/// White space between tokens changes nothing.
pub proof fn lemma_read_blank(
    text: Seq<char>,
    options: ParseOptions,
    i: int,
    gap: Seq<char>,
    cfg: Config,
)
    requires
        occurs(text, i, gap),
        is_blank(gap),
        passes_blank(cfg.mode),
        !options.exit_on_first_value,
    ensures
        leads(text, options, i, cfg, Seq::empty(), i + gap.len(), cfg),
    decreases gap.len(),
{
    if gap.len() == 0 {
        lemma_leads_nowhere(text, options, i, cfg);
    } else {
        let c = text[i];
        assert(c == gap[0]);
        assert(is_white_space(c));
        let rest = gap.skip(1);
        assert(gap =~= seq![c] + rest);
        lemma_occurs_split(text, i, seq![c], rest);
        assert forall|k: int| 0 <= k < rest.len() implies is_white_space(#[trigger] rest[k]) by {
            assert(rest[k] == gap[k + 1]);
        }
        assert(step(text, options, i, cfg) == Step::Advance(cfg));
        lemma_leads_advance(text, options, i, cfg, cfg);
        lemma_read_blank(text, options, i + 1, rest, cfg);
        lemma_leads_on(
            text,
            options,
            i,
            cfg,
            Seq::empty(),
            i + 1,
            cfg,
            Seq::empty(),
            i + gap.len(),
            cfg,
        );
        assert(Seq::<Leaf>::empty() + Seq::<Leaf>::empty() =~= Seq::<Leaf>::empty());
    }
}

/// From inside a string value, after `k` characters of its content, the
/// machine reaches the closing quote and hands the content out.
proof fn lemma_read_string_from(
    text: Seq<char>,
    options: ParseOptions,
    start: int,
    content: Seq<char>,
    chain: Seq<KeyView>,
    k: int,
)
    requires
        occurs(text, start, content + seq!['"']),
        is_quotable(content),
        0 <= k <= content.len(),
    ensures
        leads(
            text,
            options,
            start + k,
            Config { mode: Mode::StringValue { start, escaped: is_escaped_at(content, k) }, chain },
            seq![Leaf { keys: chain, value: ValueView::String(content) }],
            start + content.len() + 1,
            Config { mode: Mode::EndOfValue, chain },
        ),
    decreases content.len() - k,
{
    let closed = content + seq!['"'];
    let here = start + k;
    let from = Config { mode: Mode::StringValue { start, escaped: is_escaped_at(content, k) }, chain };
    let done = Config { mode: Mode::EndOfValue, chain };
    assert(text[here] == closed[k]);
    if k == content.len() {
        assert(closed[k] == '"');
        assert(text.subrange(start, here) =~= content) by {
            assert forall|n: int| 0 <= n < content.len() implies text[start + n] == content[n] by {
                assert(closed[n] == content[n]);
            }
        }
        lemma_leads_emit(text, options, here, from, ValueView::String(content), done);
    } else {
        assert(closed[k] == content[k]);
        let next = Config {
            mode: Mode::StringValue { start, escaped: is_escaped_at(content, k + 1) },
            chain,
        };
        assert(is_escaped_at(content, k + 1) == (!is_escaped_at(content, k) && text[here]
            == '\\'));
        lemma_leads_advance(text, options, here, from, next);
        lemma_read_string_from(text, options, start, content, chain, k + 1);
        lemma_leads_on(
            text,
            options,
            here,
            from,
            Seq::empty(),
            here + 1,
            next,
            seq![Leaf { keys: chain, value: ValueView::String(content) }],
            start + content.len() + 1,
            done,
        );
        assert(Seq::<Leaf>::empty() + seq![Leaf { keys: chain, value: ValueView::String(content) }]
            =~= seq![Leaf { keys: chain, value: ValueView::String(content) }]);
    }
}

/// A string where a value is due is handed out with its content.
pub proof fn lemma_read_string(
    text: Seq<char>,
    options: ParseOptions,
    i: int,
    content: Seq<char>,
    chain: Seq<KeyView>,
)
    requires
        occurs(text, i, seq!['"'] + content + seq!['"']),
        is_quotable(content),
    ensures
        leads(
            text,
            options,
            i,
            Config { mode: Mode::ExpectingValue, chain },
            seq![Leaf { keys: chain, value: ValueView::String(content) }],
            i + content.len() + 2,
            Config { mode: Mode::EndOfValue, chain },
        ),
{
    let from = Config { mode: Mode::ExpectingValue, chain };
    let inside = Config { mode: Mode::StringValue { start: i + 1, escaped: false }, chain };
    let leaf = Leaf { keys: chain, value: ValueView::String(content) };
    assert(seq!['"'] + content + seq!['"'] =~= seq!['"'] + (content + seq!['"']));
    lemma_occurs_split(text, i, seq!['"'], content + seq!['"']);
    assert(text[i] == seq!['"'][0]);
    lemma_leads_advance(text, options, i, from, inside);
    lemma_read_string_from(text, options, i + 1, content, chain, 0);
    lemma_leads_on(
        text,
        options,
        i,
        from,
        Seq::empty(),
        i + 1,
        inside,
        seq![leaf],
        i + content.len() + 2,
        Config { mode: Mode::EndOfValue, chain },
    );
    assert(Seq::<Leaf>::empty() + seq![leaf] =~= seq![leaf]);
}

/// From inside a key, after `k` characters of the name, the machine reaches
/// the closing quote and puts the name on the chain.
proof fn lemma_read_name_from(
    text: Seq<char>,
    options: ParseOptions,
    start: int,
    name: Seq<char>,
    chain: Seq<KeyView>,
    k: int,
)
    requires
        occurs(text, start, name + seq!['"']),
        is_quotable(name),
        0 <= k <= name.len(),
    ensures
        leads(
            text,
            options,
            start + k,
            Config { mode: Mode::InKey { escaped: is_escaped_at(name, k), start }, chain },
            Seq::empty(),
            start + name.len() + 1,
            Config { mode: Mode::Colon, chain: chain.push(KeyView::Slice(name)) },
        ),
    decreases name.len() - k,
{
    let closed = name + seq!['"'];
    let here = start + k;
    let from = Config { mode: Mode::InKey { escaped: is_escaped_at(name, k), start }, chain };
    let done = Config { mode: Mode::Colon, chain: chain.push(KeyView::Slice(name)) };
    assert(text[here] == closed[k]);
    if k == name.len() {
        assert(closed[k] == '"');
        assert(text.subrange(start, here) =~= name) by {
            assert forall|n: int| 0 <= n < name.len() implies text[start + n] == name[n] by {
                assert(closed[n] == name[n]);
            }
        }
        lemma_leads_advance(text, options, here, from, done);
    } else {
        assert(closed[k] == name[k]);
        let next = Config { mode: Mode::InKey { escaped: is_escaped_at(name, k + 1), start }, chain };
        assert(is_escaped_at(name, k + 1) == (!is_escaped_at(name, k) && text[here] == '\\'));
        lemma_leads_advance(text, options, here, from, next);
        lemma_read_name_from(text, options, start, name, chain, k + 1);
        lemma_leads_on(
            text,
            options,
            here,
            from,
            Seq::empty(),
            here + 1,
            next,
            Seq::empty(),
            start + name.len() + 1,
            done,
        );
        assert(Seq::<Leaf>::empty() + Seq::<Leaf>::empty() =~= Seq::<Leaf>::empty());
    }
}

/// After `k` characters of a number, the machine reaches its end without
/// having handed it out.
proof fn lemma_read_number_from(
    text: Seq<char>,
    options: ParseOptions,
    start: int,
    digits: Seq<char>,
    chain: Seq<KeyView>,
    k: int,
)
    requires
        occurs(text, start, digits),
        is_numeric(digits),
        1 <= k <= digits.len(),
    ensures
        leads(
            text,
            options,
            start + k,
            Config { mode: Mode::NumberValue { start }, chain },
            Seq::empty(),
            start + digits.len(),
            Config { mode: Mode::NumberValue { start }, chain },
        ),
    decreases digits.len() - k,
{
    let cfg = Config { mode: Mode::NumberValue { start }, chain };
    if k == digits.len() {
        lemma_leads_nowhere(text, options, start + k, cfg);
    } else {
        assert(text[start + k] == digits[k]);
        lemma_leads_advance(text, options, start + k, cfg, cfg);
        lemma_read_number_from(text, options, start, digits, chain, k + 1);
        lemma_leads_on(
            text,
            options,
            start + k,
            cfg,
            Seq::empty(),
            start + k + 1,
            cfg,
            Seq::empty(),
            start + digits.len(),
            cfg,
        );
        assert(Seq::<Leaf>::empty() + Seq::<Leaf>::empty() =~= Seq::<Leaf>::empty());
    }
}

/// A number where a value is due is read to its end; it is handed out only
/// by what follows it.
pub proof fn lemma_read_number(
    text: Seq<char>,
    options: ParseOptions,
    i: int,
    digits: Seq<char>,
    chain: Seq<KeyView>,
)
    requires
        occurs(text, i, digits),
        is_numeric(digits),
    ensures
        leads(
            text,
            options,
            i,
            Config { mode: Mode::ExpectingValue, chain },
            Seq::empty(),
            i + digits.len(),
            Config { mode: Mode::NumberValue { start: i }, chain },
        ),
{
    let from = Config { mode: Mode::ExpectingValue, chain };
    let inside = Config { mode: Mode::NumberValue { start: i }, chain };
    assert(text[i] == digits[0]);
    lemma_leads_advance(text, options, i, from, inside);
    lemma_read_number_from(text, options, i, digits, chain, 1);
    lemma_leads_on(
        text,
        options,
        i,
        from,
        Seq::empty(),
        i + 1,
        inside,
        Seq::empty(),
        i + digits.len(),
        inside,
    );
    assert(Seq::<Leaf>::empty() + Seq::<Leaf>::empty() =~= Seq::<Leaf>::empty());
}

/// The value that one of the three literals stands for.
pub open spec fn literal_value(token: Seq<char>) -> ValueView {
    if token == literal_true() {
        ValueView::Boolean(true)
    } else if token == literal_false() {
        ValueView::Boolean(false)
    } else {
        ValueView::Null
    }
}

/// `true`, `false` or `null` where a value is due is handed out at its last
/// character.
pub proof fn lemma_read_literal(
    text: Seq<char>,
    options: ParseOptions,
    i: int,
    token: Seq<char>,
    chain: Seq<KeyView>,
)
    requires
        occurs(text, i, token),
        token == literal_true() || token == literal_false() || token == literal_null(),
    ensures
        leads(
            text,
            options,
            i,
            Config { mode: Mode::ExpectingValue, chain },
            seq![Leaf { keys: chain, value: literal_value(token) }],
            i + token.len(),
            Config { mode: Mode::EndOfValue, chain },
        ),
{
    let from = Config { mode: Mode::ExpectingValue, chain };
    let inside = Config { mode: Mode::TrueFalseNull { start: i }, chain };
    let done = Config { mode: Mode::EndOfValue, chain };
    let none = Seq::<Leaf>::empty();
    let leaf = Leaf { keys: chain, value: literal_value(token) };
    assert(none + none =~= none);
    assert(none + seq![leaf] =~= seq![leaf]);
    assert(text[i] == token[0]);
    assert(text[i + 1] == token[1]);
    assert(text[i + 2] == token[2]);
    assert(text[i + 3] == token[3]);
    assert(literal_true()[0] == 't' && literal_false()[0] == 'f' && literal_null()[0] == 'n');
    lemma_leads_advance(text, options, i, from, inside);
    lemma_leads_advance(text, options, i + 1, inside, inside);
    lemma_leads_on(text, options, i, from, none, i + 1, inside, none, i + 2, inside);
    lemma_leads_advance(text, options, i + 2, inside, inside);
    lemma_leads_on(text, options, i, from, none, i + 2, inside, none, i + 3, inside);
    let four = text.subrange(i, i + 4);
    if token == literal_false() {
        assert(text[i + 4] == token[4]);
        assert(four =~= literal_fals());
        assert(literal_fals()[0] != literal_true()[0]);
        assert(literal_fals()[0] != literal_null()[0]);
        lemma_leads_advance(text, options, i + 3, inside, inside);
        lemma_leads_on(text, options, i, from, none, i + 3, inside, none, i + 4, inside);
        assert(text.subrange(i, i + 5) =~= literal_false());
        lemma_leads_emit(text, options, i + 4, inside, ValueView::Boolean(false), done);
        lemma_leads_on(text, options, i, from, none, i + 4, inside, seq![leaf], i + 5, done);
    } else {
        assert(four =~= token);
        assert(literal_null()[0] != literal_true()[0]);
        assert(literal_false().len() != token.len());
        lemma_leads_emit(text, options, i + 3, inside, literal_value(token), done);
        lemma_leads_on(text, options, i, from, none, i + 3, inside, seq![leaf], i + 4, done);
    }
}

/// What the character behind a complete value leads to, where the machine
/// takes it: the same whether the value was handed out before or, being a
/// number that this character ends, is handed out now.
pub proof fn lemma_read_delimiter(
    text: Seq<char>,
    options: ParseOptions,
    j: int,
    chain: Seq<KeyView>,
    to: Config,
)
    requires
        0 <= j < text.len(),
        !options.exit_on_first_value,
        end_of_value_step(j, byte_offset(text, j), text[j], chain, options.allow_comments) == Ok::<
            Config,
            Failure,
        >(to),
    ensures
        leads(
            text,
            options,
            j,
            Config { mode: Mode::EndOfValue, chain },
            Seq::empty(),
            j + 1,
            to,
        ),
        forall|start: int|
            ends_number(text[j]) ==> #[trigger] leads(
                text,
                options,
                j,
                Config { mode: Mode::NumberValue { start }, chain },
                seq![Leaf { keys: chain, value: ValueView::Number(text.subrange(start, j)) }],
                j + 1,
                to,
            ),
{
    lemma_leads_advance(text, options, j, Config { mode: Mode::EndOfValue, chain }, to);
    assert forall|start: int| ends_number(text[j]) implies #[trigger] leads(
        text,
        options,
        j,
        Config { mode: Mode::NumberValue { start }, chain },
        seq![Leaf { keys: chain, value: ValueView::Number(text.subrange(start, j)) }],
        j + 1,
        to,
    ) by {
        lemma_leads_emit(
            text,
            options,
            j,
            Config { mode: Mode::NumberValue { start }, chain },
            ValueView::Number(text.subrange(start, j)),
            to,
        );
    }
}

/// The value is a number that nothing in its own text ends.
pub open spec fn ends_open(padded: Padded) -> bool {
    padded.value is Number && padded.trail.len() == 0
}

/// The state of the machine behind a value that started at `i`.
pub open spec fn state_behind(padded: Padded, i: int, chain: Seq<KeyView>) -> Config {
    if ends_open(padded) {
        Config { mode: Mode::NumberValue { start: i + padded.lead.len() }, chain }
    } else {
        Config { mode: Mode::EndOfValue, chain }
    }
}

/// What the machine has handed out when it is behind a value.
pub open spec fn found_within(padded: Padded, chain: Seq<KeyView>) -> Seq<Leaf> {
    if ends_open(padded) {
        Seq::empty()
    } else {
        leaves(padded.value, chain)
    }
}

/// A number between white space is handed out at the first character behind
/// it, if there is one.
proof fn lemma_read_padded_number(
    text: Seq<char>,
    options: ParseOptions,
    i: int,
    padded: Padded,
    chain: Seq<KeyView>,
)
    requires
        occurs(text, i, render_padded(padded)),
        padded_is_sound(padded),
        padded.value is Number,
        !options.exit_on_first_value,
    ensures
        leads(
            text,
            options,
            i,
            Config { mode: Mode::ExpectingValue, chain },
            found_within(padded, chain),
            i + render_padded(padded).len(),
            state_behind(padded, i, chain),
        ),
        ends_open(padded) ==> text.subrange(
            i + padded.lead.len(),
            i + render_padded(padded).len(),
        ) == padded.value->digits,
{
    let digits = padded.value->digits;
    let from = Config { mode: Mode::ExpectingValue, chain };
    let inside = Config { mode: Mode::NumberValue { start: i + padded.lead.len() }, chain };
    let done = Config { mode: Mode::EndOfValue, chain };
    let none = Seq::<Leaf>::empty();
    let leaf = Leaf { keys: chain, value: ValueView::Number(digits) };
    let i1 = i + padded.lead.len();
    let i2 = i1 + digits.len();
    assert(none + none =~= none);
    assert(render_padded(padded) =~= padded.lead + (digits + padded.trail));
    lemma_occurs_split(text, i, padded.lead, digits + padded.trail);
    lemma_occurs_split(text, i1, digits, padded.trail);
    lemma_read_blank(text, options, i, padded.lead, from);
    lemma_read_number(text, options, i1, digits, chain);
    lemma_leads_on(text, options, i, from, none, i1, from, none, i2, inside);
    assert(text.subrange(i1, i2) =~= digits);
    if padded.trail.len() > 0 {
        let rest = padded.trail.skip(1);
        assert(padded.trail =~= seq![padded.trail[0]] + rest);
        lemma_occurs_split(text, i2, seq![padded.trail[0]], rest);
        assert(text[i2] == padded.trail[0]);
        assert(is_white_space(text[i2]));
        assert forall|k: int| 0 <= k < rest.len() implies is_white_space(#[trigger] rest[k]) by {
            assert(rest[k] == padded.trail[k + 1]);
        }
        lemma_read_delimiter(text, options, i2, chain, done);
        assert(leads(text, options, i2, inside, seq![leaf], i2 + 1, done));
        lemma_leads_on(text, options, i, from, none, i2, inside, seq![leaf], i2 + 1, done);
        lemma_read_blank(text, options, i2 + 1, rest, done);
        assert(none + seq![leaf] =~= seq![leaf]);
        assert(seq![leaf] + none =~= seq![leaf]);
        lemma_leads_on(
            text,
            options,
            i,
            from,
            seq![leaf],
            i2 + 1,
            done,
            none,
            i2 + 1 + rest.len(),
            done,
        );
    }
}

/// The name of a field, from the white space before it to its colon, puts
/// the name on the chain and leaves the machine before the value.
proof fn lemma_read_field_name(
    text: Seq<char>,
    options: ParseOptions,
    i: int,
    field: Field,
    chain: Seq<KeyView>,
)
    requires
        occurs(text, i, render_name(field)),
        is_blank(field.lead),
        is_quotable(field.name),
        is_blank(field.gap),
        !options.exit_on_first_value,
    ensures
        leads(
            text,
            options,
            i,
            Config { mode: Mode::InObject, chain },
            Seq::empty(),
            i + render_name(field).len(),
            Config { mode: Mode::ExpectingValue, chain: chain.push(KeyView::Slice(field.name)) },
        ),
{
    let named = chain.push(KeyView::Slice(field.name));
    let from = Config { mode: Mode::InObject, chain };
    let colon = Config { mode: Mode::Colon, chain: named };
    let to = Config { mode: Mode::ExpectingValue, chain: named };
    let none = Seq::<Leaf>::empty();
    let quote = seq!['"'];
    let i1 = i + field.lead.len();
    let i2 = i1 + 1 + field.name.len() + 1;
    let i3 = i2 + field.gap.len();
    let inside = Config { mode: Mode::InKey { escaped: false, start: i1 + 1 }, chain };
    assert(none + none =~= none);
    assert(render_name(field) =~= field.lead + (quote + ((field.name + quote) + (field.gap + seq![
        ':',
    ]))));
    lemma_occurs_split(
        text,
        i,
        field.lead,
        quote + ((field.name + quote) + (field.gap + seq![':'])),
    );
    lemma_occurs_split(text, i1, quote, (field.name + quote) + (field.gap + seq![':']));
    lemma_occurs_split(text, i1 + 1, field.name + quote, field.gap + seq![':']);
    lemma_occurs_split(text, i2, field.gap, seq![':']);
    assert(text[i1] == quote[0]);
    assert(text[i3] == seq![':'][0]);
    lemma_read_blank(text, options, i, field.lead, from);
    lemma_leads_advance(text, options, i1, from, inside);
    lemma_leads_on(text, options, i, from, none, i1, from, none, i1 + 1, inside);
    lemma_read_name_from(text, options, i1 + 1, field.name, chain, 0);
    lemma_leads_on(text, options, i, from, none, i1 + 1, inside, none, i2, colon);
    lemma_read_blank(text, options, i2, field.gap, colon);
    lemma_leads_on(text, options, i, from, none, i2, colon, none, i3, colon);
    lemma_leads_advance(text, options, i3, colon, to);
    lemma_leads_on(text, options, i, from, none, i3, colon, none, i3 + 1, to);
}

/// A value that is no number is handed out, with all that is in it, by the
/// time the machine is behind it.
pub proof fn lemma_read_document(
    text: Seq<char>,
    options: ParseOptions,
    i: int,
    doc: Document,
    chain: Seq<KeyView>,
)
    requires
        occurs(text, i, render(doc)),
        is_sound(doc),
        !(doc is Number),
        !options.exit_on_first_value,
    ensures
        leads(
            text,
            options,
            i,
            Config { mode: Mode::ExpectingValue, chain },
            leaves(doc, chain),
            i + render(doc).len(),
            Config { mode: Mode::EndOfValue, chain },
        ),
    decreases doc, 0nat,
{
    let from = Config { mode: Mode::ExpectingValue, chain };
    let done = Config { mode: Mode::EndOfValue, chain };
    let none = Seq::<Leaf>::empty();
    match doc {
        Document::String { content } => {
            lemma_read_string(text, options, i, content, chain);
        },
        Document::Number { digits } => {},
        Document::Boolean { value } => {
            assert(literal_true()[0] != literal_false()[0]);
            lemma_read_literal(text, options, i, render(doc), chain);
        },
        Document::Null => {
            assert(literal_true()[0] != literal_null()[0]);
            assert(literal_false()[0] != literal_null()[0]);
            lemma_read_literal(text, options, i, render(doc), chain);
        },
        Document::Array { items } => {
            let first = Config { mode: Mode::ExpectingValue, chain: chain.push(KeyView::Index(0)) };
            let inner = render_items(*items) + seq![']'];
            assert(render(doc) =~= seq!['['] + inner);
            lemma_occurs_split(text, i, seq!['['], inner);
            assert(text[i] == seq!['['][0]);
            lemma_leads_advance(text, options, i, from, first);
            lemma_read_items(text, options, i + 1, *items, chain, 0);
            lemma_leads_on(
                text,
                options,
                i,
                from,
                none,
                i + 1,
                first,
                leaves(doc, chain),
                i + render(doc).len(),
                done,
            );
            assert(none + leaves(doc, chain) =~= leaves(doc, chain));
        },
        Document::Object { fields } => {
            let first = Config { mode: Mode::InObject, chain };
            let inner = render_fields(*fields) + seq!['}'];
            assert(render(doc) =~= seq!['{'] + inner);
            lemma_occurs_split(text, i, seq!['{'], inner);
            assert(text[i] == seq!['{'][0]);
            lemma_leads_advance(text, options, i, from, first);
            lemma_read_fields(text, options, i + 1, *fields, chain);
            lemma_leads_on(
                text,
                options,
                i,
                from,
                none,
                i + 1,
                first,
                leaves(doc, chain),
                i + render(doc).len(),
                done,
            );
            assert(none + leaves(doc, chain) =~= leaves(doc, chain));
        },
    }
}

/// A value between white space: the machine is behind it with all of it
/// handed out, but for a number that nothing has ended yet.
pub proof fn lemma_read_padded(
    text: Seq<char>,
    options: ParseOptions,
    i: int,
    padded: Padded,
    chain: Seq<KeyView>,
)
    requires
        occurs(text, i, render_padded(padded)),
        padded_is_sound(padded),
        !options.exit_on_first_value,
    ensures
        leads(
            text,
            options,
            i,
            Config { mode: Mode::ExpectingValue, chain },
            found_within(padded, chain),
            i + render_padded(padded).len(),
            state_behind(padded, i, chain),
        ),
        ends_open(padded) ==> text.subrange(
            i + padded.lead.len(),
            i + render_padded(padded).len(),
        ) == padded.value->digits,
    decreases padded, 0nat,
{
    if padded.value is Number {
        lemma_read_padded_number(text, options, i, padded, chain);
    } else {
        let from = Config { mode: Mode::ExpectingValue, chain };
        let done = Config { mode: Mode::EndOfValue, chain };
        let none = Seq::<Leaf>::empty();
        let found = leaves(padded.value, chain);
        let body = render(padded.value);
        let i1 = i + padded.lead.len();
        let i2 = i1 + body.len();
        assert(render_padded(padded) =~= padded.lead + (body + padded.trail));
        lemma_occurs_split(text, i, padded.lead, body + padded.trail);
        lemma_occurs_split(text, i1, body, padded.trail);
        lemma_read_blank(text, options, i, padded.lead, from);
        lemma_read_document(text, options, i1, padded.value, chain);
        lemma_leads_on(text, options, i, from, none, i1, from, found, i2, done);
        assert(none + found =~= found);
        lemma_read_blank(text, options, i2, padded.trail, done);
        lemma_leads_on(
            text,
            options,
            i,
            from,
            found,
            i2,
            done,
            none,
            i2 + padded.trail.len(),
            done,
        );
        assert(found + none =~= found);
    }
}

/// A value between white space and the character behind it, where the
/// machine takes that character: all of the value is handed out.
pub proof fn lemma_read_padded_then(
    text: Seq<char>,
    options: ParseOptions,
    i: int,
    padded: Padded,
    chain: Seq<KeyView>,
    to: Config,
)
    requires
        occurs(text, i, render_padded(padded)),
        padded_is_sound(padded),
        !options.exit_on_first_value,
        i + render_padded(padded).len() < text.len(),
        ends_number(text[i + render_padded(padded).len()]),
        end_of_value_step(
            i + render_padded(padded).len(),
            byte_offset(text, i + render_padded(padded).len()),
            text[i + render_padded(padded).len()],
            chain,
            options.allow_comments,
        ) == Ok::<Config, Failure>(to),
    ensures
        leads(
            text,
            options,
            i,
            Config { mode: Mode::ExpectingValue, chain },
            leaves(padded.value, chain),
            i + render_padded(padded).len() + 1,
            to,
        ),
    decreases padded, 1nat,
{
    let j = i + render_padded(padded).len();
    let from = Config { mode: Mode::ExpectingValue, chain };
    let none = Seq::<Leaf>::empty();
    let found = leaves(padded.value, chain);
    lemma_read_padded(text, options, i, padded, chain);
    lemma_read_delimiter(text, options, j, chain, to);
    if ends_open(padded) {
        let start = i + padded.lead.len();
        assert(leads(
            text,
            options,
            j,
            Config { mode: Mode::NumberValue { start }, chain },
            seq![Leaf { keys: chain, value: ValueView::Number(text.subrange(start, j)) }],
            j + 1,
            to,
        ));
        lemma_leads_on(
            text,
            options,
            i,
            from,
            none,
            j,
            state_behind(padded, i, chain),
            found,
            j + 1,
            to,
        );
        assert(none + found =~= found);
    } else {
        lemma_leads_on(
            text,
            options,
            i,
            from,
            found,
            j,
            state_behind(padded, i, chain),
            none,
            j + 1,
            to,
        );
        assert(found + none =~= found);
    }
}

/// The items of an array and its closing bracket: every item is handed out
/// under its index, and the machine is behind the array.
pub proof fn lemma_read_items(
    text: Seq<char>,
    options: ParseOptions,
    i: int,
    items: Items,
    chain: Seq<KeyView>,
    k: nat,
)
    requires
        occurs(text, i, render_items(items) + seq![']']),
        items_are_sound(items),
        !options.exit_on_first_value,
    ensures
        leads(
            text,
            options,
            i,
            Config { mode: Mode::ExpectingValue, chain: chain.push(KeyView::Index(k)) },
            leaves_of_items(items, chain, k),
            i + render_items(items).len() + 1,
            Config { mode: Mode::EndOfValue, chain },
        ),
    decreases items, 0nat,
{
    let here = chain.push(KeyView::Index(k));
    let from = Config { mode: Mode::ExpectingValue, chain: here };
    let done = Config { mode: Mode::EndOfValue, chain };
    assert(here.drop_last() =~= chain);
    match items {
        Items::Last { item } => {
            let j = i + render_padded(item).len();
            lemma_occurs_split(text, i, render_padded(item), seq![']']);
            assert(text[j] == seq![']'][0]);
            lemma_read_padded_then(text, options, i, item, here, done);
        },
        Items::More { item, rest } => {
            let j = i + render_padded(item).len();
            let next = Config { mode: Mode::ExpectingValue, chain: chain.push(KeyView::Index(k + 1)) };
            let tail = render_items(*rest) + seq![']'];
            assert(render_items(items) + seq![']'] =~= render_padded(item) + (seq![','] + tail));
            lemma_occurs_split(text, i, render_padded(item), seq![','] + tail);
            lemma_occurs_split(text, j, seq![','], tail);
            assert(text[j] == seq![','][0]);
            assert(bumped(here) =~= chain.push(KeyView::Index(k + 1)));
            lemma_read_padded_then(text, options, i, item, here, next);
            lemma_read_items(text, options, j + 1, *rest, chain, k + 1);
            lemma_leads_on(
                text,
                options,
                i,
                from,
                leaves(item.value, here),
                j + 1,
                next,
                leaves_of_items(*rest, chain, k + 1),
                i + render_items(items).len() + 1,
                done,
            );
        },
    }
}

/// A field and the character behind it, where the machine takes that
/// character: all of the field's value is handed out under its name.
pub proof fn lemma_read_field(
    text: Seq<char>,
    options: ParseOptions,
    i: int,
    field: Field,
    chain: Seq<KeyView>,
    to: Config,
)
    requires
        occurs(text, i, render_name(field) + render_padded(field.value)),
        field_is_sound(field),
        !options.exit_on_first_value,
        i + render_name(field).len() + render_padded(field.value).len() < text.len(),
        ends_number(text[i + render_name(field).len() + render_padded(field.value).len()]),
        end_of_value_step(
            i + render_name(field).len() + render_padded(field.value).len(),
            byte_offset(text, i + render_name(field).len() + render_padded(field.value).len()),
            text[i + render_name(field).len() + render_padded(field.value).len()],
            chain.push(KeyView::Slice(field.name)),
            options.allow_comments,
        ) == Ok::<Config, Failure>(to),
    ensures
        leads(
            text,
            options,
            i,
            Config { mode: Mode::InObject, chain },
            leaves(field.value.value, chain.push(KeyView::Slice(field.name))),
            i + render_name(field).len() + render_padded(field.value).len() + 1,
            to,
        ),
    decreases field, 0nat,
{
    let here = chain.push(KeyView::Slice(field.name));
    let from = Config { mode: Mode::InObject, chain };
    let before = Config { mode: Mode::ExpectingValue, chain: here };
    let found = leaves(field.value.value, here);
    let none = Seq::<Leaf>::empty();
    let i1 = i + render_name(field).len();
    let j = i1 + render_padded(field.value).len();
    lemma_occurs_split(text, i, render_name(field), render_padded(field.value));
    lemma_read_field_name(text, options, i, field, chain);
    lemma_read_padded_then(text, options, i1, field.value, here, to);
    lemma_leads_on(text, options, i, from, none, i1, before, found, j + 1, to);
    assert(none + found =~= found);
}

/// The fields of an object and its closing brace: every field is handed
/// out under its name, and the machine is behind the object.
pub proof fn lemma_read_fields(
    text: Seq<char>,
    options: ParseOptions,
    i: int,
    fields: Fields,
    chain: Seq<KeyView>,
)
    requires
        occurs(text, i, render_fields(fields) + seq!['}']),
        fields_are_sound(fields),
        !options.exit_on_first_value,
    ensures
        leads(
            text,
            options,
            i,
            Config { mode: Mode::InObject, chain },
            leaves_of_fields(fields, chain),
            i + render_fields(fields).len() + 1,
            Config { mode: Mode::EndOfValue, chain },
        ),
    decreases fields, 0nat,
{
    let from = Config { mode: Mode::InObject, chain };
    let done = Config { mode: Mode::EndOfValue, chain };
    match fields {
        Fields::Last { field } => {
            let here = chain.push(KeyView::Slice(field.name));
            let whole = render_name(field) + render_padded(field.value);
            let j = i + whole.len();
            assert(here.drop_last() =~= chain);
            assert(render_fields(fields) =~= whole);
            lemma_occurs_split(text, i, whole, seq!['}']);
            assert(text[j] == seq!['}'][0]);
            lemma_read_field(text, options, i, field, chain, done);
        },
        Fields::More { field, rest } => {
            let here = chain.push(KeyView::Slice(field.name));
            let whole = render_name(field) + render_padded(field.value);
            let j = i + whole.len();
            let tail = render_fields(*rest) + seq!['}'];
            assert(here.drop_last() =~= chain);
            assert(render_fields(fields) + seq!['}'] =~= whole + (seq![','] + tail));
            lemma_occurs_split(text, i, whole, seq![','] + tail);
            lemma_occurs_split(text, j, seq![','], tail);
            assert(text[j] == seq![','][0]);
            lemma_read_field(text, options, i, field, chain, from);
            lemma_read_fields(text, options, j + 1, *rest, chain);
            lemma_leads_on(
                text,
                options,
                i,
                from,
                leaves(field.value.value, here),
                j + 1,
                from,
                leaves_of_fields(*rest, chain),
                i + render_fields(fields).len() + 1,
                done,
            );
        },
    }
}

} // verus!
