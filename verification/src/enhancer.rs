//! Prompt-enhancer configuration shaping: identifier normalization, the
//! human-readable labels derived from identifiers, and the default group
//! built for an unknown group id.

use vstd::prelude::*;

use crate::format::{join_spaces, lower_char, upper_char};

verus! {

/// ASCII whitespace.
pub open spec fn is_ws_char(c: char) -> bool {
    c == ' ' || c == '\t' || c == '\n' || c == '\r' || 12 == c as u32
}

/// Drop leading and trailing whitespace.
pub open spec fn trim_ws(s: Seq<char>) -> Seq<char> {
    trim_ws_right(trim_ws_left(s))
}

pub open spec fn trim_ws_left(s: Seq<char>) -> Seq<char>
    decreases s.len(),
{
    if s.len() > 0 && is_ws_char(s.first()) {
        trim_ws_left(s.drop_first())
    } else {
        s
    }
}

pub open spec fn trim_ws_right(s: Seq<char>) -> Seq<char>
    decreases s.len(),
{
    if s.len() > 0 && is_ws_char(s.last()) {
        trim_ws_right(s.drop_last())
    } else {
        s
    }
}

/// A character an identifier may keep: a lowercase letter, a digit or a
/// dash.
pub open spec fn is_ident_char(c: char) -> bool {
    (97 <= c as u32 <= 122) || (48 <= c as u32 <= 57) || c == '-'
}

/// Identifier characters pass; each maximal run of anything else becomes
/// one dash.
pub open spec fn collapse_invalid(s: Seq<char>, i: int) -> Seq<char>
    decreases s.len() - i,
{
    if i < 0 || i >= s.len() {
        Seq::empty()
    } else if is_ident_char(s[i]) {
        seq![s[i]] + collapse_invalid(s, i + 1)
    } else if i == 0 || is_ident_char(s[i - 1]) {
        seq!['-'] + collapse_invalid(s, i + 1)
    } else {
        collapse_invalid(s, i + 1)
    }
}

pub open spec fn trim_dash_left(s: Seq<char>) -> Seq<char>
    decreases s.len(),
{
    if s.len() > 0 && s.first() == '-' {
        trim_dash_left(s.drop_first())
    } else {
        s
    }
}

pub open spec fn trim_dash_right(s: Seq<char>) -> Seq<char>
    decreases s.len(),
{
    if s.len() > 0 && s.last() == '-' {
        trim_dash_right(s.drop_last())
    } else {
        s
    }
}

/// The normal form of an identifier: trimmed, lowercased, runs of foreign
/// characters turned into single dashes, and outer dashes dropped.
pub open spec fn sanitize_text(s: Seq<char>) -> Seq<char> {
    trim_dash_right(trim_dash_left(collapse_invalid(crate::format::lower_all(trim_ws(s)), 0)))
}

/// Identifier chunks for labels: split on dashes and underscores, empty
/// chunks dropped.
pub open spec fn hseg_step(s: Seq<char>, i: int, cur: Seq<char>, acc: Seq<Seq<char>>) -> Seq<
    Seq<char>,
>
    decreases s.len() - i,
{
    if i < 0 || i >= s.len() {
        if cur.len() > 0 {
            acc.push(cur)
        } else {
            acc
        }
    } else if s[i] == '-' || s[i] == '_' {
        if cur.len() > 0 {
            hseg_step(s, i + 1, Seq::empty(), acc.push(cur))
        } else {
            hseg_step(s, i + 1, cur, acc)
        }
    } else {
        hseg_step(s, i + 1, cur.push(s[i]), acc)
    }
}

pub open spec fn hsegments(s: Seq<char>) -> Seq<Seq<char>> {
    hseg_step(s, 0, Seq::empty(), Seq::empty())
}

/// First character uppercased, the rest untouched.
pub open spec fn cap_first(s: Seq<char>) -> Seq<char> {
    if s.len() == 0 {
        s
    } else {
        seq![upper_char(s[0])] + s.drop_first()
    }
}

/// The label an identifier reads as: chunks capitalized and joined with
/// spaces, or "Group" when nothing is left.
pub open spec fn humanize_text(s: Seq<char>) -> Seq<char> {
    if hsegments(s).len() == 0 {
        "Group"@
    } else {
        join_spaces(Seq::new(hsegments(s).len(), |i: int| cap_first(hsegments(s)[i])))
    }
}

fn is_ws_char_x(c: char) -> (r: bool)
    ensures
        r == is_ws_char(c),
{
    let u = c as u32;
    c == ' ' || c == '\t' || c == '\n' || c == '\r' || u == 12
}

fn is_ident_char_x(c: char) -> (r: bool)
    ensures
        r == is_ident_char(c),
{
    let u = c as u32;
    (97 <= u && u <= 122) || (48 <= u && u <= 57) || c == '-'
}

pub proof fn lemma_trim_ws_left_at_pub(s: Seq<char>, t: int)
    requires
        0 <= t <= s.len(),
        forall|j: int| 0 <= j < t ==> is_ws_char(s[j]),
        t < s.len() ==> !is_ws_char(s[t]),
    ensures
        trim_ws_left(s) == s.skip(t),
    decreases s.len(),
{
    if t > 0 {
        lemma_trim_ws_left_at_pub(s.drop_first(), t - 1);
        assert(s.drop_first().skip(t - 1) =~= s.skip(t));
    } else {
        assert(s.skip(0) =~= s);
    }
}

pub proof fn lemma_trim_ws_right_at_pub(s: Seq<char>, k: int)
    requires
        0 <= k <= s.len(),
        forall|j: int| k <= j < s.len() ==> is_ws_char(s[j]),
        k > 0 ==> !is_ws_char(s[k - 1]),
    ensures
        trim_ws_right(s) == s.take(k),
    decreases s.len(),
{
    if k < s.len() {
        lemma_trim_ws_right_at_pub(s.drop_last(), k);
        assert(s.drop_last().take(k) =~= s.take(k));
    } else {
        assert(s.take(k) =~= s);
    }
}

proof fn lemma_trim_dash_left_at(s: Seq<char>, t: int)
    requires
        0 <= t <= s.len(),
        forall|j: int| 0 <= j < t ==> s[j] == '-',
        t < s.len() ==> s[t] != '-',
    ensures
        trim_dash_left(s) == s.skip(t),
    decreases s.len(),
{
    if t > 0 {
        lemma_trim_dash_left_at(s.drop_first(), t - 1);
        assert(s.drop_first().skip(t - 1) =~= s.skip(t));
    } else {
        assert(s.skip(0) =~= s);
    }
}

proof fn lemma_trim_dash_right_at(s: Seq<char>, k: int)
    requires
        0 <= k <= s.len(),
        forall|j: int| k <= j < s.len() ==> s[j] == '-',
        k > 0 ==> s[k - 1] != '-',
    ensures
        trim_dash_right(s) == s.take(k),
    decreases s.len(),
{
    if k < s.len() {
        lemma_trim_dash_right_at(s.drop_last(), k);
        assert(s.drop_last().take(k) =~= s.take(k));
    } else {
        assert(s.take(k) =~= s);
    }
}

/// Trim the characters, ASCII-lowercase them, turn each run of foreign
/// characters into one dash, and drop outer dashes.
#[verifier::loop_isolation(false)]
#[verifier::rlimit(60)]
pub fn sanitize_identifier(value: &str) -> (r: String)
    ensures
        r@ == sanitize_text(value@),
{
    let cs = crate::format::chars_of(value);
    let n = cs.len();
    let mut t: usize = 0;
    while t < n && is_ws_char_x(cs[t])
        invariant
            0 <= t <= n,
            forall|j: int| 0 <= j < t ==> is_ws_char(cs@[j]),
        decreases n - t,
    {
        t = t + 1;
    }
    let mut e: usize = n;
    while e > t && is_ws_char_x(cs[e - 1])
        invariant
            t <= e <= n,
            forall|j: int| e <= j < n ==> is_ws_char(cs@[j]),
        decreases e,
    {
        e = e - 1;
    }
    proof {
        lemma_trim_ws_left_at_pub(cs@, t as int);
        let rest = cs@.skip(t as int);
        assert(forall|j: int| e - t <= j < rest.len() ==> is_ws_char(#[trigger] rest[j]));
        lemma_trim_ws_right_at_pub(rest, e - t);
        assert(rest.take(e - t) =~= cs@.subrange(t as int, e as int));
    }
    // lowercase the trimmed middle
    let mut low: Vec<char> = Vec::new();
    let mut p: usize = t;
    while p < e
        invariant
            t <= p <= e,
            low@.len() == p - t,
            forall|j: int| 0 <= j < p - t ==> low@[j] == lower_char(cs@[t + j]),
        decreases e - p,
    {
        low.push(crate::format::lower_char_x(cs[p]));
        p = p + 1;
    }
    proof {
        assert(low@ =~= crate::format::lower_all(trim_ws(cs@)));
    }
    // collapse runs of foreign characters
    let m = low.len();
    let mut outc: Vec<char> = Vec::new();
    let mut i: usize = 0;
    while i < m
        invariant
            0 <= i <= m,
            m == low@.len(),
            outc@ + collapse_invalid(low@, i as int) == collapse_invalid(low@, 0),
        decreases m - i,
    {
        let c = low[i];
        if is_ident_char_x(c) {
            outc.push(c);
            proof {
                assert(outc@ + collapse_invalid(low@, i + 1) =~= outc@.drop_last() + (seq![
                    low@[i as int],
                ] + collapse_invalid(low@, i + 1)));
            }
        } else if i == 0 || is_ident_char_x(low[i - 1]) {
            outc.push('-');
            proof {
                assert(outc@ + collapse_invalid(low@, i + 1) =~= outc@.drop_last() + (seq!['-']
                    + collapse_invalid(low@, i + 1)));
            }
        }
        i = i + 1;
    }
    proof {
        assert(collapse_invalid(low@, m as int) =~= Seq::<char>::empty());
        assert(outc@ + collapse_invalid(low@, m as int) =~= outc@);
        assert(outc@ == collapse_invalid(low@, 0));
    }
    // drop outer dashes
    let w = outc.len();
    let mut a: usize = 0;
    while a < w && outc[a] == '-'
        invariant
            0 <= a <= w,
            forall|j: int| 0 <= j < a ==> outc@[j] == '-',
        decreases w - a,
    {
        a = a + 1;
    }
    let mut b: usize = w;
    while b > a && outc[b - 1] == '-'
        invariant
            a <= b <= w,
            forall|j: int| b <= j < w ==> outc@[j] == '-',
        decreases b,
    {
        b = b - 1;
    }
    proof {
        lemma_trim_dash_left_at(outc@, a as int);
        let rest = outc@.skip(a as int);
        assert(forall|j: int| b - a <= j < rest.len() ==> #[trigger] rest[j] == '-');
        lemma_trim_dash_right_at(rest, b - a);
        assert(rest.take(b - a) =~= outc@.subrange(a as int, b as int));
    }
    let kept = crate::format::chars_copy(&outc, a, b);
    crate::format::string_of(&kept)
}

/// Split the identifier on dashes and underscores, capitalize each chunk,
/// and join with spaces; an identifier with no chunks reads "Group".
#[verifier::loop_isolation(false)]
#[verifier::rlimit(60)]
pub fn humanize_identifier(value: &str) -> (r: String)
    ensures
        r@ == humanize_text(value@),
{
    let cs = crate::format::chars_of(value);
    let n = cs.len();
    let mut parts: Vec<Vec<char>> = Vec::new();
    let mut cur: Vec<char> = Vec::new();
    proof {
        assert(cur@ =~= Seq::<char>::empty());
        assert(crate::format::part_views(parts@) =~= Seq::<Seq<char>>::empty());
    }
    let mut i: usize = 0;
    while i < n
        invariant
            0 <= i <= n,
            n == cs@.len(),
            hseg_step(cs@, i as int, cur@, crate::format::part_views(parts@)) == hsegments(cs@),
        decreases n - i,
    {
        let c = cs[i];
        if c == '-' || c == '_' {
            if cur.len() > 0 {
                let ghost pv = crate::format::part_views(parts@);
                let ghost c0 = cur@;
                parts.push(cur);
                proof {
                    assert(crate::format::part_views(parts@) =~= pv.push(c0));
                }
                cur = Vec::new();
            }
        } else {
            cur.push(c);
        }
        i = i + 1;
    }
    if cur.len() > 0 {
        let ghost pv = crate::format::part_views(parts@);
        let ghost c0 = cur@;
        parts.push(cur);
        proof {
            assert(crate::format::part_views(parts@) =~= pv.push(c0));
        }
    }
    proof {
        assert(crate::format::part_views(parts@) == hsegments(cs@));
    }
    let m = parts.len();
    if m == 0 {
        return String::from_str("Group");
    }
    let ghost capped = Seq::new(
        hsegments(cs@).len(),
        |q: int| cap_first(hsegments(cs@)[q]),
    );
    let mut out: Vec<char> = Vec::new();
    let mut k: usize = 0;
    while k < m
        invariant
            0 <= k <= m,
            m == parts@.len(),
            crate::format::part_views(parts@) == hsegments(cs@),
            out@ == join_spaces(capped.take(k as int)),
        decreases m - k,
    {
        if k > 0 {
            out.push(' ');
        }
        let p = &parts[k];
        let pn = p.len();
        let ghost mid = out@;
        if pn > 0 {
            out.push(crate::format::upper_char_x(p[0]));
            let mut j: usize = 1;
            while j < pn
                invariant
                    1 <= j <= pn,
                    pn == p@.len(),
                    out@ == mid + seq![upper_char(p@[0])] + p@.subrange(1, j as int),
                decreases pn - j,
            {
                out.push(p[j]);
                proof {
                    assert(mid + seq![upper_char(p@[0])] + p@.subrange(1, j + 1) =~= (mid + seq![
                        upper_char(p@[0]),
                    ] + p@.subrange(1, j as int)).push(p@[j as int]));
                }
                j = j + 1;
            }
            proof {
                assert(p@.subrange(1, pn as int) =~= p@.drop_first());
                assert(out@ =~= mid + cap_first(p@));
            }
        } else {
            proof {
                assert(out@ =~= mid + cap_first(p@));
            }
        }
        proof {
            let next = capped.take(k + 1);
            assert(next.drop_last() =~= capped.take(k as int));
            assert(next.last() == cap_first(hsegments(cs@)[k as int]));
            if k == 0 {
                assert(out@ =~= join_spaces(next));
            } else {
                assert(join_spaces(next) == join_spaces(capped.take(k as int)) + seq![' ']
                    + cap_first(hsegments(cs@)[k as int]));
                assert(out@ =~= join_spaces(next));
            }
        }
        k = k + 1;
    }
    proof {
        assert(capped.take(m as int) =~= capped);
    }
    crate::format::string_of(&out)
}

/// One selectable option of a group.
pub struct PromptEnhancerOption {
    pub id: String,
    pub label: String,
    pub summary_label: String,
    pub description: Option<String>,
    pub instruction: String,
}

/// One group of options.
pub struct PromptEnhancerGroup {
    pub id: String,
    pub label: String,
    pub helper_text: Option<String>,
    pub summary_heading: String,
    pub multi_select: bool,
    pub default_option_id: Option<String>,
    pub options: Vec<PromptEnhancerOption>,
}

/// The whole configuration: a version, the order groups are shown in, and
/// the groups by id.
pub struct PromptEnhancerConfig {
    pub version: u32,
    pub group_order: Vec<String>,
    pub groups: Vec<(String, PromptEnhancerGroup)>,
}

/// The group built for an id nothing is known about: a normalized id, a
/// label read from it, and one template option, preselected unless the
/// group is multi-select.
pub fn build_default_group(group_id: &str, multi_select: bool) -> (r: PromptEnhancerGroup)
    ensures
        r@ == default_group_model(group_id@, multi_select),
{
    let normalized_id = sanitize_identifier(group_id);
    let label = humanize_identifier(normalized_id.as_str());
    let heading = label.clone();
    let option = PromptEnhancerOption {
        id: String::from_str("default"),
        label: String::from_str("New option"),
        summary_label: String::from_str("New option"),
        description: Some(String::from_str("Describe what this option influences.")),
        instruction: String::from_str(
            "Explain the guidance this option should add to the refined prompt.",
        ),
    };
    let default_option_id = if multi_select {
        None
    } else {
        Some(String::from_str("default"))
    };
    let mut options: Vec<PromptEnhancerOption> = Vec::new();
    options.push(option);
    let r = PromptEnhancerGroup {
        id: normalized_id,
        label,
        helper_text: None,
        summary_heading: heading,
        multi_select,
        default_option_id,
        options,
    };
    proof {
        assert(option_views(r.options@) =~= default_group_model(
            group_id@,
            multi_select,
        ).options);
    }
    r
}

/// The text with outer whitespace dropped.
pub fn trim_ws_str(s: &str) -> (r: String)
    ensures
        r@ == trim_ws(s@),
{
    let cs = crate::format::chars_of(s);
    let n = cs.len();
    let mut t: usize = 0;
    while t < n && is_ws_char_x(cs[t])
        invariant
            0 <= t <= n,
            n == cs@.len(),
            forall|j: int| 0 <= j < t ==> is_ws_char(cs@[j]),
        decreases n - t,
    {
        t = t + 1;
    }
    let mut e: usize = n;
    while e > t && is_ws_char_x(cs[e - 1])
        invariant
            t <= e <= n,
            n == cs@.len(),
            forall|j: int| e <= j < n ==> is_ws_char(cs@[j]),
        decreases e,
    {
        e = e - 1;
    }
    proof {
        lemma_trim_ws_left_at_pub(cs@, t as int);
        let rest = cs@.skip(t as int);
        assert(forall|j: int| e - t <= j < rest.len() ==> is_ws_char(#[trigger] rest[j]));
        lemma_trim_ws_right_at_pub(rest, e - t);
        assert(rest.take(e - t) =~= cs@.subrange(t as int, e as int));
    }
    let kept = crate::format::chars_copy(&cs, t, e);
    crate::format::string_of(&kept)
}

/// The shape of one option.
pub struct OptionModel {
    pub id: Seq<char>,
    pub label: Seq<char>,
    pub summary_label: Seq<char>,
    pub description: Option<Seq<char>>,
    pub instruction: Seq<char>,
}

/// The shape of one group.
pub struct GroupModel {
    pub id: Seq<char>,
    pub label: Seq<char>,
    pub helper_text: Option<Seq<char>>,
    pub summary_heading: Seq<char>,
    pub multi_select: bool,
    pub default_option_id: Option<Seq<char>>,
    pub options: Seq<OptionModel>,
}

/// The shape of the whole configuration.
pub struct ConfigModel {
    pub version: int,
    pub group_order: Seq<Seq<char>>,
    pub groups: Seq<(Seq<char>, GroupModel)>,
}

pub open spec fn opt_text_view(o: Option<String>) -> Option<Seq<char>> {
    match o {
        Some(s) => Some(s@),
        None => None,
    }
}

impl View for PromptEnhancerOption {
    type V = OptionModel;

    open spec fn view(&self) -> OptionModel {
        OptionModel {
            id: self.id@,
            label: self.label@,
            summary_label: self.summary_label@,
            description: opt_text_view(self.description),
            instruction: self.instruction@,
        }
    }
}

/// The models of a run of options.
pub open spec fn option_views(s: Seq<PromptEnhancerOption>) -> Seq<OptionModel> {
    Seq::new(s.len(), |i: int| s[i]@)
}

impl View for PromptEnhancerGroup {
    type V = GroupModel;

    open spec fn view(&self) -> GroupModel {
        GroupModel {
            id: self.id@,
            label: self.label@,
            helper_text: opt_text_view(self.helper_text),
            summary_heading: self.summary_heading@,
            multi_select: self.multi_select,
            default_option_id: opt_text_view(self.default_option_id),
            options: option_views(self.options@),
        }
    }
}

impl View for PromptEnhancerConfig {
    type V = ConfigModel;

    open spec fn view(&self) -> ConfigModel {
        ConfigModel {
            version: self.version as int,
            group_order: Seq::new(self.group_order@.len(), |i: int| self.group_order@[i]@),
            groups: Seq::new(
                self.groups@.len(),
                |i: int| (self.groups@[i].0@, self.groups@[i].1@),
            ),
        }
    }
}

/// A string field of an object, trimmed; `None` when absent or not a
/// string.
pub open spec fn str_field_trim(m: crate::json::JsonModel, key: Seq<char>) -> Option<Seq<char>> {
    match crate::json::json_get_str(m, key) {
        Some(s) => Some(trim_ws(s)),
        None => None,
    }
}

/// Keep the text only when it has characters.
pub open spec fn nonblank(o: Option<Seq<char>>) -> Option<Seq<char>> {
    match o {
        Some(s) => if s.len() > 0 {
            Some(s)
        } else {
            None
        },
        None => None,
    }
}

/// What a raw option entry sanitizes to: nothing without a normalizable id
/// and a non-blank instruction; otherwise trimmed fields with the standing
/// defaults filled in.
pub open spec fn option_of(raw: crate::json::JsonModel) -> Option<OptionModel> {
    match crate::json::json_get_str(raw, "id"@) {
        Some(rawid) => {
            let id = sanitize_text(rawid);
            if id.len() == 0 {
                None
            } else {
                let instruction = match str_field_trim(raw, "instruction"@) {
                    Some(s) => s,
                    None => Seq::empty(),
                };
                if instruction.len() == 0 {
                    None
                } else {
                    let label = match nonblank(str_field_trim(raw, "label"@)) {
                        Some(s) => s,
                        None => "New option"@,
                    };
                    let summary_label = match nonblank(str_field_trim(raw, "summaryLabel"@)) {
                        Some(s) => s,
                        None => label,
                    };
                    Some(
                        OptionModel {
                            id,
                            label,
                            summary_label,
                            description: nonblank(str_field_trim(raw, "description"@)),
                            instruction,
                        },
                    )
                }
            }
        },
        None => None,
    }
}

/// A trimmed string field of an object, when present and a string.
fn str_field_trim_x(raw: &crate::json::JsonValue, key: &str) -> (r: Option<String>)
    ensures
        opt_text_view(r) == str_field_trim(raw@, key@),
{
    match raw.get_str(key) {
        Some(s) => Some(trim_ws_str(s.as_str())),
        None => None,
    }
}

/// A trimmed, non-blank string field of an object.
fn nonblank_field_x(raw: &crate::json::JsonValue, key: &str) -> (r: Option<String>)
    ensures
        opt_text_view(r) == nonblank(str_field_trim(raw@, key@)),
{
    match str_field_trim_x(raw, key) {
        Some(s) => {
            if s.as_str().unicode_len() == 0 {
                None
            } else {
                Some(s)
            }
        },
        None => None,
    }
}

/// Sanitize one raw option entry: normalize its id, trim its texts, fill
/// the standing defaults, and drop it whole when the id normalizes to
/// nothing or the instruction is blank.
pub fn sanitize_option(raw: &crate::json::JsonValue) -> (r: Option<PromptEnhancerOption>)
    ensures
        match r {
            Some(o) => option_of(raw@) == Some(o@),
            None => option_of(raw@) is None,
        },
{
    let rawid = match raw.get_str("id") {
        Some(s) => s.clone(),
        None => {
            return None;
        },
    };
    let id = sanitize_identifier(rawid.as_str());
    if id.as_str().unicode_len() == 0 {
        return None;
    }
    let instruction = match str_field_trim_x(raw, "instruction") {
        Some(s) => s,
        None => String::new(),
    };
    if instruction.as_str().unicode_len() == 0 {
        return None;
    }
    let label = match nonblank_field_x(raw, "label") {
        Some(s) => s,
        None => String::from_str("New option"),
    };
    let summary_label = match nonblank_field_x(raw, "summaryLabel") {
        Some(s) => s,
        None => label.clone(),
    };
    let description = nonblank_field_x(raw, "description");
    Some(PromptEnhancerOption { id, label, summary_label, description, instruction })
}

/// Index of the first option with this id, or the length when none has it.
pub open spec fn find_opt(s: Seq<OptionModel>, id: Seq<char>) -> int
    decreases s.len(),
{
    if s.len() == 0 {
        0
    } else if s.first().id == id {
        0
    } else {
        1 + find_opt(s.drop_first(), id)
    }
}

pub open spec fn has_opt(s: Seq<OptionModel>, id: Seq<char>) -> bool {
    find_opt(s, id) < s.len()
}

/// Put an option into the gathered set: a repeated id keeps its place and
/// takes the newer fields; a new id goes to the end.
pub open spec fn insert_opt(acc: Seq<OptionModel>, o: OptionModel) -> Seq<OptionModel> {
    let j = find_opt(acc, o.id);
    if j < acc.len() {
        acc.update(j, o)
    } else {
        acc.push(o)
    }
}

/// Gather the sanitized options of raw entries, in first-appearance order.
pub open spec fn opts_map_fold(acc: Seq<OptionModel>, entries: Seq<crate::json::JsonModel>) -> Seq<
    OptionModel,
>
    decreases entries.len(),
{
    if entries.len() == 0 {
        acc
    } else {
        let acc2 = match option_of(entries.first()) {
            Some(o) => insert_opt(acc, o),
            None => acc,
        };
        opts_map_fold(acc2, entries.drop_first())
    }
}

/// The custom options a raw group carries.
pub open spec fn custom_options(raw: crate::json::JsonModel) -> Seq<OptionModel> {
    match crate::json::json_get(raw, "options"@) {
        Some(crate::json::JsonModel::Array(a)) => opts_map_fold(Seq::empty(), a),
        _ => Seq::empty(),
    }
}

/// Each expected option, replaced by the custom one with the same id when
/// there is one.
pub open spec fn take_or_fallback(fb: Seq<OptionModel>, map: Seq<OptionModel>) -> Seq<
    OptionModel,
> {
    Seq::new(
        fb.len(),
        |i: int|
            {
                let j = find_opt(map, fb[i].id);
                if j < map.len() {
                    map[j]
                } else {
                    fb[i]
                }
            },
    )
}

/// The custom options whose id no expected option has, in gathered order.
pub open spec fn leftover_options(map: Seq<OptionModel>, fb: Seq<OptionModel>) -> Seq<OptionModel>
    decreases map.len(),
{
    if map.len() == 0 {
        Seq::empty()
    } else if has_opt(fb, map.first().id) {
        leftover_options(map.drop_first(), fb)
    } else {
        seq![map.first()] + leftover_options(map.drop_first(), fb)
    }
}

/// All options a repaired group ends with.
pub open spec fn merged_options_of(raw: crate::json::JsonModel, fb_opts: Seq<OptionModel>) -> Seq<
    OptionModel,
> {
    take_or_fallback(fb_opts, custom_options(raw)) + leftover_options(custom_options(raw), fb_opts)
}

/// What a raw group entry repairs to, against the expected fallback: the
/// fallback's id, texts overridden only by non-blank trimmed ones, the
/// merged options, and a default option that exists — unless the group is
/// multi-select, which never has one.
pub open spec fn group_of(raw: crate::json::JsonModel, fb: GroupModel) -> GroupModel {
    let merged = merged_options_of(raw, fb.options);
    let multi = match crate::json::json_get_bool(raw, "multiSelect"@) {
        Some(b) => b,
        None => fb.multi_select,
    };
    let cand = match crate::json::json_get_str(raw, "defaultOptionId"@) {
        Some(s) => Some(sanitize_text(s)),
        None => None,
    };
    let default_option_id = if multi {
        None
    } else {
        match cand {
            Some(c) => if has_opt(merged, c) {
                Some(c)
            } else {
                fallback_default(fb, merged)
            },
            None => fallback_default(fb, merged),
        }
    };
    GroupModel {
        id: fb.id,
        label: match nonblank(str_field_trim(raw, "label"@)) {
            Some(s) => s,
            None => fb.label,
        },
        helper_text: match nonblank(str_field_trim(raw, "helperText"@)) {
            Some(s) => Some(s),
            None => fb.helper_text,
        },
        summary_heading: match nonblank(str_field_trim(raw, "summaryHeading"@)) {
            Some(s) => s,
            None => fb.summary_heading,
        },
        multi_select: multi,
        default_option_id,
        options: merged,
    }
}

/// The default when the raw entry names none that exists: the fallback's
/// default, else the first merged option.
pub open spec fn fallback_default(fb: GroupModel, merged: Seq<OptionModel>) -> Option<Seq<char>> {
    match fb.default_option_id {
        Some(d) => Some(d),
        None => if merged.len() > 0 {
            Some(merged.first().id)
        } else {
            None
        },
    }
}

proof fn lemma_find_opt_at(s: Seq<OptionModel>, id: Seq<char>, j: int)
    requires
        0 <= j < s.len(),
        s[j].id == id,
        forall|k: int| 0 <= k < j ==> (#[trigger] s[k]).id != id,
    ensures
        find_opt(s, id) == j,
    decreases s.len(),
{
    if j > 0 {
        lemma_find_opt_at(s.drop_first(), id, j - 1);
    }
}

proof fn lemma_find_opt_absent(s: Seq<OptionModel>, id: Seq<char>)
    requires
        forall|k: int| 0 <= k < s.len() ==> (#[trigger] s[k]).id != id,
    ensures
        find_opt(s, id) == s.len(),
    decreases s.len(),
{
    if s.len() > 0 {
        lemma_find_opt_absent(s.drop_first(), id);
    }
}

proof fn lemma_find_opt_bounds(s: Seq<OptionModel>, id: Seq<char>)
    ensures
        0 <= find_opt(s, id) <= s.len(),
        find_opt(s, id) < s.len() ==> s[find_opt(s, id)].id == id,
        forall|k: int| 0 <= k < find_opt(s, id) ==> (#[trigger] s[k]).id != id,
    decreases s.len(),
{
    if s.len() > 0 && s.first().id != id {
        lemma_find_opt_bounds(s.drop_first(), id);
        assert forall|k: int| 0 <= k < find_opt(s, id) implies (#[trigger] s[k]).id != id by {
            if k > 0 {
                assert(s.drop_first()[k - 1] == s[k]);
            }
        }
    }
}

/// An independent copy of one option.
fn clone_option(o: &PromptEnhancerOption) -> (r: PromptEnhancerOption)
    ensures
        r@ == o@,
{
    PromptEnhancerOption {
        id: o.id.clone(),
        label: o.label.clone(),
        summary_label: o.summary_label.clone(),
        description: match &o.description {
            Some(d) => Some(d.clone()),
            None => None,
        },
        instruction: o.instruction.clone(),
    }
}

/// Index of the first held option with this id, or the length.
#[verifier::loop_isolation(false)]
fn find_opt_x(opts: &Vec<PromptEnhancerOption>, id: &String) -> (j: usize)
    ensures
        j == find_opt(option_views(opts@), id@),
        j <= opts@.len(),
{
    let n = opts.len();
    let mut i: usize = 0;
    while i < n
        invariant
            0 <= i <= n,
            forall|k: int| 0 <= k < i ==> (#[trigger] option_views(opts@)[k]).id != id@,
        decreases n - i,
    {
        if opts[i].id == *id {
            proof {
                lemma_find_opt_at(option_views(opts@), id@, i as int);
            }
            return i;
        }
        i = i + 1;
    }
    proof {
        lemma_find_opt_absent(option_views(opts@), id@);
    }
    n
}

/// Repair one raw group entry against the expected fallback group.
#[verifier::loop_isolation(false)]
#[verifier::rlimit(100)]
pub fn ensure_group_integrity(
    raw: &crate::json::JsonValue,
    fallback: &PromptEnhancerGroup,
) -> (r: PromptEnhancerGroup)
    ensures
        r@ == group_of(raw@, fallback@),
{
    let ghost target = group_of(raw@, fallback@);
    // gather the sanitized custom options
    let mut map: Vec<PromptEnhancerOption> = Vec::new();
    proof {
        assert(option_views(map@) =~= Seq::<OptionModel>::empty());
    }
    if let Some(v) = raw.get("options") {
        if let Some(entries) = v.as_array() {
            let ghost ems = crate::json::models_of(entries@);
            proof {
                crate::json::lemma_models_of_len(entries@);
                assert(ems.skip(0) =~= ems);
            }
            let n = entries.len();
            let mut i: usize = 0;
            while i < n
                invariant
                    0 <= i <= n,
                    n == entries@.len(),
                    opts_map_fold(option_views(map@), ems.skip(i as int)) == custom_options(
                        raw@,
                    ),
                decreases n - i,
            {
                proof {
                    crate::json::lemma_models_of_index(entries@, i as int);
                    assert(ems.skip(i as int).first() == ems[i as int]);
                    assert(ems.skip(i as int).drop_first() =~= ems.skip(i + 1));
                }
                match sanitize_option(&entries[i]) {
                    Some(o) => {
                        let ghost mv = option_views(map@);
                        let j = find_opt_x(&map, &o.id);
                        if j < map.len() {
                            let ghost ov = o@;
                            map.set(j, o);
                            proof {
                                assert(option_views(map@) =~= mv.update(j as int, ov));
                            }
                        } else {
                            let ghost ov = o@;
                            map.push(o);
                            proof {
                                assert(option_views(map@) =~= mv.push(ov));
                            }
                        }
                    },
                    None => {},
                }
                i = i + 1;
            }
            proof {
                assert(ems.skip(n as int) =~= Seq::<crate::json::JsonModel>::empty());
            }
        }
    }
    proof {
        assert(option_views(map@) == custom_options(raw@));
    }
    let ghost mapv = option_views(map@);
    let ghost fbv = option_views(fallback.options@);
    // expected options, replaced by customs with the same id
    let mut merged: Vec<PromptEnhancerOption> = Vec::new();
    let fn_count = fallback.options.len();
    let mut i: usize = 0;
    while i < fn_count
        invariant
            0 <= i <= fn_count,
            fn_count == fallback.options@.len(),
            option_views(map@) == mapv,
            option_views(merged@) == take_or_fallback(fbv, mapv).take(i as int),
        decreases fn_count - i,
    {
        let ghost before = option_views(merged@);
        let j = find_opt_x(&map, &fallback.options[i].id);
        if j < map.len() {
            merged.push(clone_option(&map[j]));
        } else {
            merged.push(clone_option(&fallback.options[i]));
        }
        proof {
            assert(option_views(merged@) =~= before.push(merged@.last()@));
            assert(take_or_fallback(fbv, mapv).take(i + 1) =~= take_or_fallback(
                fbv,
                mapv,
            ).take(i as int).push(take_or_fallback(fbv, mapv)[i as int]));
        }
        i = i + 1;
    }
    proof {
        assert(take_or_fallback(fbv, mapv).take(fn_count as int) =~= take_or_fallback(fbv, mapv));
    }
    // customs no expected option answers to
    let ghost mut gathered: Seq<OptionModel> = Seq::empty();
    proof {
        assert(mapv.skip(0) =~= mapv);
        assert(gathered + leftover_options(mapv.skip(0), fbv) =~= leftover_options(mapv, fbv));
    }
    let m = map.len();
    let mut k: usize = 0;
    while k < m
        invariant
            0 <= k <= m,
            m == map@.len(),
            option_views(map@) == mapv,
            option_views(merged@) == take_or_fallback(fbv, mapv) + gathered,
            gathered + leftover_options(mapv.skip(k as int), fbv) == leftover_options(mapv, fbv),
        decreases m - k,
    {
        proof {
            assert(mapv.skip(k as int).first() == mapv[k as int]);
            assert(mapv.skip(k as int).drop_first() =~= mapv.skip(k + 1));
        }
        let j = find_opt_x(&fallback.options, &map[k].id);
        if j >= fallback.options.len() {
            let ghost before = option_views(merged@);
            merged.push(clone_option(&map[k]));
            proof {
                assert(option_views(merged@) =~= before.push(merged@.last()@));
                gathered = gathered.push(mapv[k as int]);
                assert(gathered + leftover_options(mapv.skip(k + 1), fbv) =~= (
                gathered.drop_last() + (seq![mapv[k as int]] + leftover_options(
                    mapv.skip(k + 1),
                    fbv,
                ))));
                assert(option_views(merged@) =~= take_or_fallback(fbv, mapv) + gathered);
            }
        }
        k = k + 1;
    }
    proof {
        assert(mapv.skip(m as int) =~= Seq::<OptionModel>::empty());
        assert(gathered =~= leftover_options(mapv, fbv));
        assert(option_views(merged@) == merged_options_of(raw@, fbv));
    }
    // multi-select and the default option
    let multi = match raw.get("multiSelect") {
        Some(v) => match v.as_bool() {
            Some(b) => b,
            None => fallback.multi_select,
        },
        None => fallback.multi_select,
    };
    let default_option_id: Option<String> = if multi {
        None
    } else {
        let mut chosen: Option<String> = None;
        match raw.get_str("defaultOptionId") {
            Some(s) => {
                let c = sanitize_identifier(s.as_str());
                let j = find_opt_x(&merged, &c);
                if j < merged.len() {
                    chosen = Some(c);
                }
            },
            None => {},
        }
        match chosen {
            Some(c) => Some(c),
            None => match &fallback.default_option_id {
                Some(d) => Some(d.clone()),
                None => {
                    if merged.len() > 0 {
                        Some(merged[0].id.clone())
                    } else {
                        None
                    }
                },
            },
        }
    };
    // texts, overridden only by non-blank trimmed ones
    let label = match nonblank_field_x(raw, "label") {
        Some(s) => s,
        None => fallback.label.clone(),
    };
    let helper_text = match nonblank_field_x(raw, "helperText") {
        Some(s) => Some(s),
        None => match &fallback.helper_text {
            Some(h) => Some(h.clone()),
            None => None,
        },
    };
    let summary_heading = match nonblank_field_x(raw, "summaryHeading") {
        Some(s) => s,
        None => fallback.summary_heading.clone(),
    };
    let r = PromptEnhancerGroup {
        id: fallback.id.clone(),
        label,
        helper_text,
        summary_heading,
        multi_select: multi,
        default_option_id,
        options: merged,
    };
    proof {
        assert(r@.options == target.options);
        assert(r@.default_option_id == target.default_option_id);
    }
    r
}

/// The template option every default group starts with.
pub open spec fn template_option_model() -> OptionModel {
    OptionModel {
        id: "default"@,
        label: "New option"@,
        summary_label: "New option"@,
        description: Some("Describe what this option influences."@),
        instruction: "Explain the guidance this option should add to the refined prompt."@,
    }
}

/// The group built for an id nothing is known about.
pub open spec fn default_group_model(raw_id: Seq<char>, multi: bool) -> GroupModel {
    GroupModel {
        id: sanitize_text(raw_id),
        label: humanize_text(sanitize_text(raw_id)),
        helper_text: None,
        summary_heading: humanize_text(sanitize_text(raw_id)),
        multi_select: multi,
        default_option_id: if multi {
            None
        } else {
            Some("default"@)
        },
        options: seq![template_option_model()],
    }
}

/// The numerical value of decimal digit text.
pub open spec fn digits_val(s: Seq<char>) -> int
    decreases s.len(),
{
    if s.len() == 0 {
        0
    } else {
        digits_val(s.drop_last()) * 10 + (s.last() as u32 - 48)
    }
}

pub open spec fn all_digits(s: Seq<char>) -> bool {
    forall|j: int| 0 <= j < s.len() ==> 48 <= (#[trigger] s[j]) as u32 <= 57
}

/// What the raw text of a number yields as an unsigned integer: digits
/// only, at least one, fitting in sixty-four bits.
pub open spec fn number_as_u64(s: Seq<char>) -> Option<int> {
    if s.len() > 0 && all_digits(s) && digits_val(s) <= u64::MAX {
        Some(digits_val(s))
    } else {
        None
    }
}

proof fn lemma_digits_val_nonneg(s: Seq<char>)
    requires
        all_digits(s),
    ensures
        digits_val(s) >= 0,
    decreases s.len(),
{
    if s.len() > 0 {
        assert(all_digits(s.drop_last()));
        lemma_digits_val_nonneg(s.drop_last());
    }
}

proof fn lemma_digits_val_grows(s: Seq<char>, k: int)
    requires
        all_digits(s),
        0 <= k <= s.len(),
    ensures
        digits_val(s) >= digits_val(s.take(k)),
    decreases s.len() - k,
{
    if k < s.len() {
        lemma_digits_val_grows(s, k + 1);
        assert(s.take(k + 1).drop_last() =~= s.take(k));
        assert(all_digits(s.take(k)));
        lemma_digits_val_nonneg(s.take(k));
        assert(digits_val(s.take(k + 1)) == digits_val(s.take(k)) * 10 + (s[k] as u32 - 48));
    } else {
        assert(s.take(k) =~= s);
    }
}

/// Read the digits of a number's raw text, or nothing when any character
/// is not a digit or the value does not fit.
#[verifier::loop_isolation(false)]
fn number_text_u64(txt: &String) -> (r: Option<u64>)
    ensures
        match r {
            Some(v) => number_as_u64(txt@) == Some(v as int),
            None => number_as_u64(txt@) is None,
        },
{
    let cs = crate::format::chars_of(txt.as_str());
    let n = cs.len();
    if n == 0 {
        return None;
    }
    let mut acc: u64 = 0;
    let mut i: usize = 0;
    while i < n
        invariant
            0 <= i <= n,
            all_digits(cs@.take(i as int)),
            acc == digits_val(cs@.take(i as int)),
        decreases n - i,
    {
        let u = cs[i] as u32;
        if !(48 <= u && u <= 57) {
            return None;
        }
        let d = (u - 48) as u64;
        proof {
            assert(all_digits(cs@.take(i + 1)));
            assert(cs@.take(i + 1).drop_last() =~= cs@.take(i as int));
        }
        if acc > (u64::MAX - d) / 10 {
            proof {
                assert(digits_val(cs@.take(i + 1)) > u64::MAX);
                if all_digits(cs@) {
                    lemma_digits_val_grows(cs@, i + 1);
                }
            }
            return None;
        }
        acc = acc * 10 + d;
        i = i + 1;
    }
    proof {
        assert(cs@.take(n as int) =~= cs@);
    }
    Some(acc)
}

/// Index of the first raw-group binding with this id, or the length.
pub open spec fn find_key(s: Seq<(Seq<char>, crate::json::JsonModel)>, id: Seq<char>) -> int
    decreases s.len(),
{
    if s.len() == 0 {
        0
    } else if s.first().0 == id {
        0
    } else {
        1 + find_key(s.drop_first(), id)
    }
}

/// Index of the first listed id equal to this one, or the length.
pub open spec fn find_str(s: Seq<Seq<char>>, x: Seq<char>) -> int
    decreases s.len(),
{
    if s.len() == 0 {
        0
    } else if s.first() == x {
        0
    } else {
        1 + find_str(s.drop_first(), x)
    }
}

pub open spec fn contains_str(s: Seq<Seq<char>>, x: Seq<char>) -> bool {
    find_str(s, x) < s.len()
}

/// Index of the first configured group with this id, or the length.
pub open spec fn find_cfg_key(s: Seq<(Seq<char>, GroupModel)>, id: Seq<char>) -> int
    decreases s.len(),
{
    if s.len() == 0 {
        0
    } else if s.first().0 == id {
        0
    } else {
        1 + find_cfg_key(s.drop_first(), id)
    }
}

/// The bindings of a raw-group list.
pub open spec fn rg_views(s: Seq<(String, crate::json::JsonValue)>) -> Seq<
    (Seq<char>, crate::json::JsonModel),
> {
    Seq::new(s.len(), |i: int| (s[i].0@, crate::json::model_of(s[i].1)))
}

/// The texts of a list of strings.
pub open spec fn str_views(s: Seq<String>) -> Seq<Seq<char>> {
    Seq::new(s.len(), |i: int| s[i]@)
}

/// The bindings of a configured group list.
pub open spec fn cfg_views(s: Seq<(String, PromptEnhancerGroup)>) -> Seq<(Seq<char>, GroupModel)> {
    Seq::new(s.len(), |i: int| (s[i].0@, s[i].1@))
}

/// Bind a raw group: a repeated id keeps its place and takes the newer
/// entry; a new id goes to the end.
pub open spec fn insert_raw(
    acc: Seq<(Seq<char>, crate::json::JsonModel)>,
    id: Seq<char>,
    v: crate::json::JsonModel,
) -> Seq<(Seq<char>, crate::json::JsonModel)> {
    let j = find_key(acc, id);
    if j < acc.len() {
        acc.update(j, (id, v))
    } else {
        acc.push((id, v))
    }
}

/// Gather raw groups under normalized ids; entries whose id normalizes to
/// nothing are dropped.
pub open spec fn raw_groups_fold(
    acc: Seq<(Seq<char>, crate::json::JsonModel)>,
    pairs: Seq<(Seq<char>, crate::json::JsonModel)>,
) -> Seq<(Seq<char>, crate::json::JsonModel)>
    decreases pairs.len(),
{
    if pairs.len() == 0 {
        acc
    } else {
        let id = sanitize_text(pairs.first().0);
        let acc2 = if id.len() == 0 {
            acc
        } else {
            insert_raw(acc, id, pairs.first().1)
        };
        raw_groups_fold(acc2, pairs.drop_first())
    }
}

/// The raw groups a configuration payload carries.
pub open spec fn raw_groups_of(value: crate::json::JsonModel) -> Seq<
    (Seq<char>, crate::json::JsonModel),
> {
    match crate::json::json_get(value, "groups"@) {
        Some(crate::json::JsonModel::Object(pairs)) => raw_groups_fold(Seq::empty(), pairs),
        _ => Seq::empty(),
    }
}

pub open spec fn push_missing(acc: Seq<Seq<char>>, x: Seq<char>) -> Seq<Seq<char>> {
    if contains_str(acc, x) {
        acc
    } else {
        acc.push(x)
    }
}

/// The ids named by the `groupOrder` entries, normalized, first mention
/// winning.
pub open spec fn order_from_entries(acc: Seq<Seq<char>>, entries: Seq<crate::json::JsonModel>) -> Seq<
    Seq<char>,
>
    decreases entries.len(),
{
    if entries.len() == 0 {
        acc
    } else {
        let acc2 = match entries.first() {
            crate::json::JsonModel::Str(s) => {
                let nid = sanitize_text(s);
                if nid.len() > 0 {
                    push_missing(acc, nid)
                } else {
                    acc
                }
            },
            _ => acc,
        };
        order_from_entries(acc2, entries.drop_first())
    }
}

pub open spec fn append_missing(acc: Seq<Seq<char>>, ids: Seq<Seq<char>>) -> Seq<Seq<char>>
    decreases ids.len(),
{
    if ids.len() == 0 {
        acc
    } else {
        append_missing(push_missing(acc, ids.first()), ids.drop_first())
    }
}

pub open spec fn raw_keys(rg: Seq<(Seq<char>, crate::json::JsonModel)>) -> Seq<Seq<char>> {
    Seq::new(rg.len(), |i: int| rg[i].0)
}

/// The order ids from the payload itself.
pub open spec fn base_order(value: crate::json::JsonModel) -> Seq<Seq<char>> {
    match crate::json::json_get(value, "groupOrder"@) {
        Some(crate::json::JsonModel::Array(a)) => order_from_entries(Seq::empty(), a),
        _ => Seq::empty(),
    }
}

/// The final order: the payload's, then every expected id not yet named,
/// then every raw-group id not yet named.
pub open spec fn order_of(value: crate::json::JsonModel, defaults: ConfigModel) -> Seq<Seq<char>> {
    append_missing(
        append_missing(base_order(value), defaults.group_order),
        raw_keys(raw_groups_of(value)),
    )
}

/// The multi-select hint a raw group gives for a group nothing else is
/// known about.
pub open spec fn hint_of(rg: Seq<(Seq<char>, crate::json::JsonModel)>, id: Seq<char>) -> bool {
    let k = find_key(rg, id);
    if k < rg.len() {
        match crate::json::json_get_bool(rg[k].1, "multiSelect"@) {
            Some(b) => b,
            None => false,
        }
    } else {
        false
    }
}

/// The repaired group for one ordered id: the expected group, or a default
/// one built for the id, repaired against the raw entry when there is one.
pub open spec fn group_for(
    value: crate::json::JsonModel,
    defaults: ConfigModel,
    id: Seq<char>,
) -> GroupModel {
    let rg = raw_groups_of(value);
    let j = find_cfg_key(defaults.groups, id);
    let fb = if j < defaults.groups.len() {
        defaults.groups[j].1
    } else {
        default_group_model(id, hint_of(rg, id))
    };
    let k = find_key(rg, id);
    if k < rg.len() {
        group_of(rg[k].1, fb)
    } else {
        fb
    }
}

/// The version the payload names, truncated to thirty-two bits; anything
/// else keeps the expected version.
pub open spec fn version_of(value: crate::json::JsonModel, defaults: ConfigModel) -> int {
    match crate::json::json_get(value, "version"@) {
        Some(crate::json::JsonModel::Number(txt)) => match number_as_u64(txt) {
            Some(v) => v % 0x100000000,
            None => defaults.version,
        },
        _ => defaults.version,
    }
}

/// What a whole raw configuration payload sanitizes to, against the
/// expected configuration.
pub open spec fn config_of(value: crate::json::JsonModel, defaults: ConfigModel) -> ConfigModel {
    let order = order_of(value, defaults);
    ConfigModel {
        version: version_of(value, defaults),
        group_order: order,
        groups: Seq::new(order.len(), |i: int| (order[i], group_for(value, defaults, order[i]))),
    }
}

proof fn lemma_find_key_at(s: Seq<(Seq<char>, crate::json::JsonModel)>, id: Seq<char>, j: int)
    requires
        0 <= j < s.len(),
        s[j].0 == id,
        forall|k: int| 0 <= k < j ==> (#[trigger] s[k]).0 != id,
    ensures
        find_key(s, id) == j,
    decreases s.len(),
{
    if j > 0 {
        lemma_find_key_at(s.drop_first(), id, j - 1);
    }
}

proof fn lemma_find_key_absent(s: Seq<(Seq<char>, crate::json::JsonModel)>, id: Seq<char>)
    requires
        forall|k: int| 0 <= k < s.len() ==> (#[trigger] s[k]).0 != id,
    ensures
        find_key(s, id) == s.len(),
    decreases s.len(),
{
    if s.len() > 0 {
        lemma_find_key_absent(s.drop_first(), id);
    }
}

proof fn lemma_find_str_at(s: Seq<Seq<char>>, x: Seq<char>, j: int)
    requires
        0 <= j < s.len(),
        s[j] == x,
        forall|k: int| 0 <= k < j ==> (#[trigger] s[k]) != x,
    ensures
        find_str(s, x) == j,
    decreases s.len(),
{
    if j > 0 {
        lemma_find_str_at(s.drop_first(), x, j - 1);
    }
}

proof fn lemma_find_str_absent(s: Seq<Seq<char>>, x: Seq<char>)
    requires
        forall|k: int| 0 <= k < s.len() ==> (#[trigger] s[k]) != x,
    ensures
        find_str(s, x) == s.len(),
    decreases s.len(),
{
    if s.len() > 0 {
        lemma_find_str_absent(s.drop_first(), x);
    }
}

proof fn lemma_find_cfg_key_at(s: Seq<(Seq<char>, GroupModel)>, id: Seq<char>, j: int)
    requires
        0 <= j < s.len(),
        s[j].0 == id,
        forall|k: int| 0 <= k < j ==> (#[trigger] s[k]).0 != id,
    ensures
        find_cfg_key(s, id) == j,
    decreases s.len(),
{
    if j > 0 {
        lemma_find_cfg_key_at(s.drop_first(), id, j - 1);
    }
}

proof fn lemma_find_cfg_key_absent(s: Seq<(Seq<char>, GroupModel)>, id: Seq<char>)
    requires
        forall|k: int| 0 <= k < s.len() ==> (#[trigger] s[k]).0 != id,
    ensures
        find_cfg_key(s, id) == s.len(),
    decreases s.len(),
{
    if s.len() > 0 {
        lemma_find_cfg_key_absent(s.drop_first(), id);
    }
}

/// Index of the first raw binding with this id, or the length.
#[verifier::loop_isolation(false)]
fn find_key_x(rg: &Vec<(String, crate::json::JsonValue)>, id: &String) -> (j: usize)
    ensures
        j == find_key(rg_views(rg@), id@),
        j <= rg@.len(),
{
    let n = rg.len();
    let mut i: usize = 0;
    while i < n
        invariant
            0 <= i <= n,
            forall|k: int| 0 <= k < i ==> (#[trigger] rg_views(rg@)[k]).0 != id@,
        decreases n - i,
    {
        if rg[i].0 == *id {
            proof {
                lemma_find_key_at(rg_views(rg@), id@, i as int);
            }
            return i;
        }
        i = i + 1;
    }
    proof {
        lemma_find_key_absent(rg_views(rg@), id@);
    }
    n
}

/// Index of the first listed id equal to this one, or the length.
#[verifier::loop_isolation(false)]
fn find_str_x(list: &Vec<String>, x: &String) -> (j: usize)
    ensures
        j == find_str(str_views(list@), x@),
        j <= list@.len(),
{
    let n = list.len();
    let mut i: usize = 0;
    while i < n
        invariant
            0 <= i <= n,
            forall|k: int| 0 <= k < i ==> (#[trigger] str_views(list@)[k]) != x@,
        decreases n - i,
    {
        if list[i] == *x {
            proof {
                lemma_find_str_at(str_views(list@), x@, i as int);
            }
            return i;
        }
        i = i + 1;
    }
    proof {
        lemma_find_str_absent(str_views(list@), x@);
    }
    n
}

/// Index of the first configured group with this id, or the length.
#[verifier::loop_isolation(false)]
fn find_cfg_key_x(groups: &Vec<(String, PromptEnhancerGroup)>, id: &String) -> (j: usize)
    ensures
        j == find_cfg_key(cfg_views(groups@), id@),
        j <= groups@.len(),
{
    let n = groups.len();
    let mut i: usize = 0;
    while i < n
        invariant
            0 <= i <= n,
            forall|k: int| 0 <= k < i ==> (#[trigger] cfg_views(groups@)[k]).0 != id@,
        decreases n - i,
    {
        if groups[i].0 == *id {
            proof {
                lemma_find_cfg_key_at(cfg_views(groups@), id@, i as int);
            }
            return i;
        }
        i = i + 1;
    }
    proof {
        lemma_find_cfg_key_absent(cfg_views(groups@), id@);
    }
    n
}

/// An independent copy of one group.
#[verifier::loop_isolation(false)]
fn clone_group(g: &PromptEnhancerGroup) -> (r: PromptEnhancerGroup)
    ensures
        r@ == g@,
{
    let n = g.options.len();
    let mut options: Vec<PromptEnhancerOption> = Vec::new();
    let mut i: usize = 0;
    while i < n
        invariant
            0 <= i <= n,
            n == g.options@.len(),
            options@.len() == i,
            forall|k: int| 0 <= k < i ==> (#[trigger] options@[k])@ == g.options@[k]@,
        decreases n - i,
    {
        options.push(clone_option(&g.options[i]));
        i = i + 1;
    }
    proof {
        assert(option_views(options@) =~= option_views(g.options@));
    }
    PromptEnhancerGroup {
        id: g.id.clone(),
        label: g.label.clone(),
        helper_text: match &g.helper_text {
            Some(h) => Some(h.clone()),
            None => None,
        },
        summary_heading: g.summary_heading.clone(),
        multi_select: g.multi_select,
        default_option_id: match &g.default_option_id {
            Some(d) => Some(d.clone()),
            None => None,
        },
        options,
    }
}

/// Gather the raw groups of a configuration payload under normalized ids.
#[verifier::loop_isolation(false)]
#[verifier::rlimit(100)]
fn collect_raw_groups(value: &crate::json::JsonValue) -> (rg: Vec<(String, crate::json::JsonValue)>)
    ensures
        rg_views(rg@) == raw_groups_of(value@),
{
    let mut rawg: Vec<(String, crate::json::JsonValue)> = Vec::new();
    proof {
        assert(rg_views(rawg@) =~= Seq::<(Seq<char>, crate::json::JsonModel)>::empty());
    }
    if let Some(v) = value.get("groups") {
        if let Some(pairs) = v.as_object() {
            let ghost pms = crate::json::pair_models_of(pairs@);
            proof {
                crate::json::lemma_pair_models_of_len(pairs@);
                assert(pms.skip(0) =~= pms);
            }
            let n = pairs.len();
            let mut i: usize = 0;
            while i < n
                invariant
                    0 <= i <= n,
                    n == pairs@.len(),
                    raw_groups_fold(rg_views(rawg@), pms.skip(i as int)) == raw_groups_of(
                        value@,
                    ),
                decreases n - i,
            {
                proof {
                    crate::json::lemma_pair_models_of_index(pairs@, i as int);
                    assert(pms.skip(i as int).first() == pms[i as int]);
                    assert(pms.skip(i as int).drop_first() =~= pms.skip(i + 1));
                }
                let id = sanitize_identifier(pairs[i].0.as_str());
                if id.as_str().unicode_len() != 0 {
                    let ghost before = rg_views(rawg@);
                    let cp = pairs[i].1.deep_copy();
                    let j = find_key_x(&rawg, &id);
                    if j < rawg.len() {
                        let ghost idv = id@;
                        let ghost cpv = crate::json::model_of(cp);
                        rawg.set(j, (id, cp));
                        proof {
                            assert(rg_views(rawg@) =~= before.update(j as int, (idv, cpv)));
                        }
                    } else {
                        let ghost idv = id@;
                        let ghost cpv = crate::json::model_of(cp);
                        rawg.push((id, cp));
                        proof {
                            assert(rg_views(rawg@) =~= before.push((idv, cpv)));
                        }
                    }
                }
                i = i + 1;
            }
            proof {
                assert(pms.skip(n as int) =~= Seq::<(Seq<char>, crate::json::JsonModel)>::empty());
            }
        }
    }
    rawg
}

/// The final group order of a configuration payload.
#[verifier::loop_isolation(false)]
#[verifier::rlimit(100)]
fn collect_order(
    value: &crate::json::JsonValue,
    defaults: &PromptEnhancerConfig,
    rawg: &Vec<(String, crate::json::JsonValue)>,
) -> (order: Vec<String>)
    requires
        rg_views(rawg@) == raw_groups_of(value@),
    ensures
        str_views(order@) == order_of(value@, defaults@),
{
    let mut order: Vec<String> = Vec::new();
    proof {
        assert(str_views(order@) =~= Seq::<Seq<char>>::empty());
    }
    if let Some(v) = value.get("groupOrder") {
        if let Some(entries) = v.as_array() {
            let ghost ems = crate::json::models_of(entries@);
            proof {
                crate::json::lemma_models_of_len(entries@);
                assert(ems.skip(0) =~= ems);
            }
            let n = entries.len();
            let mut i: usize = 0;
            while i < n
                invariant
                    0 <= i <= n,
                    n == entries@.len(),
                    order_from_entries(str_views(order@), ems.skip(i as int)) == base_order(
                        value@,
                    ),
                decreases n - i,
            {
                proof {
                    crate::json::lemma_models_of_index(entries@, i as int);
                    assert(ems.skip(i as int).first() == ems[i as int]);
                    assert(ems.skip(i as int).drop_first() =~= ems.skip(i + 1));
                }
                match entries[i].as_str() {
                    Some(raw_id) => {
                        let nid = sanitize_identifier(raw_id.as_str());
                        if nid.as_str().unicode_len() != 0 {
                            let ghost before = str_views(order@);
                            let j = find_str_x(&order, &nid);
                            if j >= order.len() {
                                let ghost nv = nid@;
                                order.push(nid);
                                proof {
                                    assert(str_views(order@) =~= before.push(nv));
                                }
                            }
                        }
                    },
                    None => {},
                }
                i = i + 1;
            }
            proof {
                assert(ems.skip(n as int) =~= Seq::<crate::json::JsonModel>::empty());
            }
        }
    }
    proof {
        assert(str_views(order@) == base_order(value@));
    }
    // expected ids not yet named
    let ghost dg = defaults@.group_order;
    proof {
        assert(dg.skip(0) =~= dg);
    }
    let dn = defaults.group_order.len();
    let mut i: usize = 0;
    while i < dn
        invariant
            0 <= i <= dn,
            dn == defaults.group_order@.len(),
            append_missing(str_views(order@), dg.skip(i as int)) == append_missing(
                base_order(value@),
                dg,
            ),
        decreases dn - i,
    {
        proof {
            assert(dg.skip(i as int).first() == dg[i as int]);
            assert(dg.skip(i as int).drop_first() =~= dg.skip(i + 1));
        }
        let ghost before = str_views(order@);
        let j = find_str_x(&order, &defaults.group_order[i]);
        if j >= order.len() {
            order.push(defaults.group_order[i].clone());
            proof {
                assert(str_views(order@) =~= before.push(dg[i as int]));
            }
        }
        i = i + 1;
    }
    proof {
        assert(dg.skip(dn as int) =~= Seq::<Seq<char>>::empty());
    }
    // raw-group ids not yet named
    let ghost rk = raw_keys(raw_groups_of(value@));
    proof {
        assert(rk.skip(0) =~= rk);
    }
    let rn = rawg.len();
    let mut k: usize = 0;
    while k < rn
        invariant
            0 <= k <= rn,
            rn == rawg@.len(),
            append_missing(str_views(order@), rk.skip(k as int)) == order_of(value@, defaults@),
        decreases rn - k,
    {
        proof {
            assert(rk.skip(k as int).first() == rk[k as int]);
            assert(rk.skip(k as int).drop_first() =~= rk.skip(k + 1));
            assert(rk[k as int] == rawg@[k as int].0@);
        }
        let ghost before = str_views(order@);
        let j = find_str_x(&order, &rawg[k].0);
        if j >= order.len() {
            order.push(rawg[k].0.clone());
            proof {
                assert(str_views(order@) =~= before.push(rk[k as int]));
            }
        }
        k = k + 1;
    }
    proof {
        assert(rk.skip(rn as int) =~= Seq::<Seq<char>>::empty());
    }
    order
}

/// Sanitize a whole raw configuration payload against the expected
/// configuration: normalized ids, a duplicate-free order that names every
/// expected and every raw group, each group repaired against its
/// fallback, and the payload's version when it is a usable number.
#[verifier::loop_isolation(false)]
#[verifier::rlimit(100)]
pub fn sanitize_config(
    value: &crate::json::JsonValue,
    defaults: &PromptEnhancerConfig,
) -> (r: PromptEnhancerConfig)
    ensures
        r@ == config_of(value@, defaults@),
{
    let rawg = collect_raw_groups(value);
    let order = collect_order(value, defaults, &rawg);
    let ghost orderv = order_of(value@, defaults@);
    let mut out_groups: Vec<(String, PromptEnhancerGroup)> = Vec::new();
    let n = order.len();
    let mut i: usize = 0;
    while i < n
        invariant
            0 <= i <= n,
            n == order@.len(),
            str_views(order@) == orderv,
            rg_views(rawg@) == raw_groups_of(value@),
            out_groups@.len() == i,
            forall|q: int|
                0 <= q < i ==> (#[trigger] out_groups@[q]).0@ == orderv[q] && out_groups@[q].1@
                    == group_for(value@, defaults@, orderv[q]),
        decreases n - i,
    {
        let id = order[i].clone();
        proof {
            assert(id@ == orderv[i as int]);
        }
        let j = find_cfg_key_x(&defaults.groups, &id);
        let fb: PromptEnhancerGroup = if j < defaults.groups.len() {
            proof {
                assert(cfg_views(defaults.groups@)[j as int].1 == defaults.groups@[j as int].1@);
            }
            clone_group(&defaults.groups[j].1)
        } else {
            let k = find_key_x(&rawg, &id);
            let hint: bool = if k < rawg.len() {
                match rawg[k].1.get("multiSelect") {
                    Some(v) => match v.as_bool() {
                        Some(b) => b,
                        None => false,
                    },
                    None => false,
                }
            } else {
                false
            };
            build_default_group(id.as_str(), hint)
        };
        proof {
            assert(defaults@.groups =~= cfg_views(defaults.groups@));
        }
        let k = find_key_x(&rawg, &id);
        let g: PromptEnhancerGroup = if k < rawg.len() {
            proof {
                assert(rg_views(rawg@)[k as int].1 == crate::json::model_of(rawg@[k as int].1));
            }
            ensure_group_integrity(&rawg[k].1, &fb)
        } else {
            fb
        };
        proof {
            assert(g@ == group_for(value@, defaults@, id@));
        }
        out_groups.push((id, g));
        i = i + 1;
    }
    let version: u32 = match value.get("version") {
        Some(v) => match v.as_number_text() {
            Some(txt) => match number_text_u64(txt) {
                Some(num) => (num % 0x100000000u64) as u32,
                None => defaults.version,
            },
            None => defaults.version,
        },
        None => defaults.version,
    };
    let r = PromptEnhancerConfig { version, group_order: order, groups: out_groups };
    proof {
        let target = config_of(value@, defaults@);
        assert(r@.group_order =~= target.group_order);
        assert(r@.groups =~= target.groups);
        assert(r@.version == target.version);
    }
    r
}

} // verus!
