//! A reader for the script-embedded download listing: a flat array of
//! objects whose keys and values are strings, with the standard string
//! escapes. One forward pass over the characters drives a state machine;
//! anything outside that shape is a decode failure.

use vstd::prelude::*;
use crate::trusted::char_to_string;

verus! {

/// One parsed object: its key/value pairs in order.
pub type PairsModel = Seq<(Seq<char>, Seq<char>)>;

/// Where the payload reader stands.
pub enum JsonMode {
    Pre,
    WantObj,
    WantKey,
    InKey(String),
    InKeyEsc(String),
    WantColon(String),
    WantVal(String),
    InVal(String, String),
    InValEsc(String, String),
    AfterPair,
    AfterObj,
    Done,
    Failed,
}

/// The model of the reader's position.
pub enum JsonModeModel {
    Pre,
    WantObj,
    WantKey,
    InKey(Seq<char>),
    InKeyEsc(Seq<char>),
    WantColon(Seq<char>),
    WantVal(Seq<char>),
    InVal(Seq<char>, Seq<char>),
    InValEsc(Seq<char>, Seq<char>),
    AfterPair,
    AfterObj,
    Done,
    Failed,
}

impl View for JsonMode {
    type V = JsonModeModel;

    open spec fn view(&self) -> JsonModeModel {
        match self {
            JsonMode::Pre => JsonModeModel::Pre,
            JsonMode::WantObj => JsonModeModel::WantObj,
            JsonMode::WantKey => JsonModeModel::WantKey,
            JsonMode::InKey(a) => JsonModeModel::InKey(a@),
            JsonMode::InKeyEsc(a) => JsonModeModel::InKeyEsc(a@),
            JsonMode::WantColon(k) => JsonModeModel::WantColon(k@),
            JsonMode::WantVal(k) => JsonModeModel::WantVal(k@),
            JsonMode::InVal(k, a) => JsonModeModel::InVal(k@, a@),
            JsonMode::InValEsc(k, a) => JsonModeModel::InValEsc(k@, a@),
            JsonMode::AfterPair => JsonModeModel::AfterPair,
            JsonMode::AfterObj => JsonModeModel::AfterObj,
            JsonMode::Done => JsonModeModel::Done,
            JsonMode::Failed => JsonModeModel::Failed,
        }
    }
}

/// The reader's state: finished objects, the pairs of the object under
/// construction, and the position.
pub struct JsonState {
    pub objs: Vec<Vec<(String, String)>>,
    pub cur: Vec<(String, String)>,
    pub mode: JsonMode,
}

/// The model of the reader's state.
pub struct JsonStateModel {
    pub objs: Seq<PairsModel>,
    pub cur: PairsModel,
    pub mode: JsonModeModel,
}

pub open spec fn pairs_model(v: Seq<(String, String)>) -> PairsModel {
    v.map_values(|p: (String, String)| (p.0@, p.1@))
}

impl View for JsonState {
    type V = JsonStateModel;

    open spec fn view(&self) -> JsonStateModel {
        JsonStateModel {
            objs: self.objs@.map_values(|o: Vec<(String, String)>| pairs_model(o@)),
            cur: pairs_model(self.cur@),
            mode: self.mode@,
        }
    }
}

pub open spec fn is_json_ws(c: char) -> bool {
    c == ' ' || c == '\t' || c == '\n' || c == '\r'
}

/// What an escape character resolves to, when it is one of the standard
/// escapes.
pub open spec fn escape_of(c: char) -> Option<char> {
    if c == '"' {
        Some('"')
    } else if c == '\\' {
        Some('\\')
    } else if c == '/' {
        Some('/')
    } else if c == 'n' {
        Some('\n')
    } else if c == 'r' {
        Some('\r')
    } else if c == 't' {
        Some('\t')
    } else if c == 'b' {
        Some('\u{0008}')
    } else if c == 'f' {
        Some('\u{000c}')
    } else {
        None
    }
}

/// One step of the payload reader.
pub open spec fn json_step(st: JsonStateModel, c: char) -> JsonStateModel {
    match st.mode {
        JsonModeModel::Failed => st,
        JsonModeModel::Done => if is_json_ws(c) {
            st
        } else {
            JsonStateModel { mode: JsonModeModel::Failed, ..st }
        },
        JsonModeModel::Pre => if c == '[' {
            JsonStateModel { mode: JsonModeModel::WantObj, ..st }
        } else if is_json_ws(c) {
            st
        } else {
            JsonStateModel { mode: JsonModeModel::Failed, ..st }
        },
        JsonModeModel::WantObj => if c == '{' {
            JsonStateModel { cur: Seq::empty(), mode: JsonModeModel::WantKey, ..st }
        } else if c == ']' {
            JsonStateModel { mode: JsonModeModel::Done, ..st }
        } else if is_json_ws(c) {
            st
        } else {
            JsonStateModel { mode: JsonModeModel::Failed, ..st }
        },
        JsonModeModel::WantKey => if c == '"' {
            JsonStateModel { mode: JsonModeModel::InKey(Seq::empty()), ..st }
        } else if c == '}' {
            JsonStateModel {
                objs: st.objs.push(st.cur),
                cur: Seq::empty(),
                mode: JsonModeModel::AfterObj,
            }
        } else if is_json_ws(c) {
            st
        } else {
            JsonStateModel { mode: JsonModeModel::Failed, ..st }
        },
        JsonModeModel::InKey(a) => if c == '"' {
            JsonStateModel { mode: JsonModeModel::WantColon(a), ..st }
        } else if c == '\\' {
            JsonStateModel { mode: JsonModeModel::InKeyEsc(a), ..st }
        } else {
            JsonStateModel { mode: JsonModeModel::InKey(a.push(c)), ..st }
        },
        JsonModeModel::InKeyEsc(a) => match escape_of(c) {
            Some(e) => JsonStateModel { mode: JsonModeModel::InKey(a.push(e)), ..st },
            None => JsonStateModel { mode: JsonModeModel::Failed, ..st },
        },
        JsonModeModel::WantColon(k) => if c == ':' {
            JsonStateModel { mode: JsonModeModel::WantVal(k), ..st }
        } else if is_json_ws(c) {
            JsonStateModel { mode: JsonModeModel::WantColon(k), ..st }
        } else {
            JsonStateModel { mode: JsonModeModel::Failed, ..st }
        },
        JsonModeModel::WantVal(k) => if c == '"' {
            JsonStateModel { mode: JsonModeModel::InVal(k, Seq::empty()), ..st }
        } else if is_json_ws(c) {
            JsonStateModel { mode: JsonModeModel::WantVal(k), ..st }
        } else {
            JsonStateModel { mode: JsonModeModel::Failed, ..st }
        },
        JsonModeModel::InVal(k, a) => if c == '"' {
            JsonStateModel {
                cur: st.cur.push((k, a)),
                mode: JsonModeModel::AfterPair,
                ..st
            }
        } else if c == '\\' {
            JsonStateModel { mode: JsonModeModel::InValEsc(k, a), ..st }
        } else {
            JsonStateModel { mode: JsonModeModel::InVal(k, a.push(c)), ..st }
        },
        JsonModeModel::InValEsc(k, a) => match escape_of(c) {
            Some(e) => JsonStateModel { mode: JsonModeModel::InVal(k, a.push(e)), ..st },
            None => JsonStateModel { mode: JsonModeModel::Failed, ..st },
        },
        JsonModeModel::AfterPair => if c == ',' {
            JsonStateModel { mode: JsonModeModel::WantKey, ..st }
        } else if c == '}' {
            JsonStateModel {
                objs: st.objs.push(st.cur),
                cur: Seq::empty(),
                mode: JsonModeModel::AfterObj,
            }
        } else if is_json_ws(c) {
            st
        } else {
            JsonStateModel { mode: JsonModeModel::Failed, ..st }
        },
        JsonModeModel::AfterObj => if c == ',' {
            JsonStateModel { mode: JsonModeModel::WantObj, ..st }
        } else if c == ']' {
            JsonStateModel { mode: JsonModeModel::Done, ..st }
        } else if is_json_ws(c) {
            st
        } else {
            JsonStateModel { mode: JsonModeModel::Failed, ..st }
        },
    }
}

/// Running the payload reader over a whole character stream.
pub open spec fn json_run(cs: Seq<char>, st: JsonStateModel) -> JsonStateModel
    decreases cs.len(),
{
    if cs.len() == 0 {
        st
    } else {
        json_run(cs.drop_first(), json_step(st, cs[0]))
    }
}

/// The objects a payload text lists, when it is one whole well-formed
/// array of flat string objects.
pub open spec fn spec_parse_flat_objects(s: Seq<char>) -> Option<Seq<PairsModel>> {
    let st = json_run(
        s,
        JsonStateModel { objs: Seq::empty(), cur: Seq::empty(), mode: JsonModeModel::Pre },
    );
    if st.mode is Done {
        Some(st.objs)
    } else {
        None
    }
}

/// Feeds one character to the reader.
fn json_step_exec(st: JsonState, c: char) -> (r: JsonState)
    ensures
        r@ == json_step(st@, c),
{
    let JsonState { mut objs, mut cur, mode } = st;
    let ghost st0 = JsonStateModel {
        objs: objs@.map_values(|o: Vec<(String, String)>| pairs_model(o@)),
        cur: pairs_model(cur@),
        mode: mode@,
    };
    let ws = c == ' ' || c == '\t' || c == '\n' || c == '\r';
    match mode {
        JsonMode::Failed => JsonState { objs, cur, mode: JsonMode::Failed },
        JsonMode::Done => if ws {
            JsonState { objs, cur, mode: JsonMode::Done }
        } else {
            JsonState { objs, cur, mode: JsonMode::Failed }
        },
        JsonMode::Pre => if c == '[' {
            JsonState { objs, cur, mode: JsonMode::WantObj }
        } else if ws {
            JsonState { objs, cur, mode: JsonMode::Pre }
        } else {
            JsonState { objs, cur, mode: JsonMode::Failed }
        },
        JsonMode::WantObj => if c == '{' {
            let r = JsonState { objs, cur: Vec::new(), mode: JsonMode::WantKey };
            proof {
                assert(pairs_model(r.cur@) =~= Seq::<(Seq<char>, Seq<char>)>::empty());
            }
            r
        } else if c == ']' {
            JsonState { objs, cur, mode: JsonMode::Done }
        } else if ws {
            JsonState { objs, cur, mode: JsonMode::WantObj }
        } else {
            JsonState { objs, cur, mode: JsonMode::Failed }
        },
        JsonMode::WantKey => if c == '"' {
            JsonState { objs, cur, mode: JsonMode::InKey(String::new()) }
        } else if c == '}' {
            let ghost o0 = objs@;
            objs.push(cur);
            let r = JsonState { objs, cur: Vec::new(), mode: JsonMode::AfterObj };
            proof {
                assert(r@.objs =~= st0.objs.push(st0.cur));
                assert(pairs_model(r.cur@) =~= Seq::<(Seq<char>, Seq<char>)>::empty());
            }
            r
        } else if ws {
            JsonState { objs, cur, mode: JsonMode::WantKey }
        } else {
            JsonState { objs, cur, mode: JsonMode::Failed }
        },
        JsonMode::InKey(a) => if c == '"' {
            JsonState { objs, cur, mode: JsonMode::WantColon(a) }
        } else if c == '\\' {
            JsonState { objs, cur, mode: JsonMode::InKeyEsc(a) }
        } else {
            let mut a = a;
            a.append(char_to_string(c).as_str());
            proof {
                assert(a@ =~= st0.mode.arrow_InKey_0().push(c));
            }
            JsonState { objs, cur, mode: JsonMode::InKey(a) }
        },
        JsonMode::InKeyEsc(a) => match escape_char(c) {
            Some(e) => {
                let mut a = a;
                a.append(char_to_string(e).as_str());
                proof {
                    assert(a@ =~= st0.mode.arrow_InKeyEsc_0().push(
                        escape_of(c).unwrap(),
                    ));
                }
                JsonState { objs, cur, mode: JsonMode::InKey(a) }
            },
            None => JsonState { objs, cur, mode: JsonMode::Failed },
        },
        JsonMode::WantColon(k) => if c == ':' {
            JsonState { objs, cur, mode: JsonMode::WantVal(k) }
        } else if ws {
            JsonState { objs, cur, mode: JsonMode::WantColon(k) }
        } else {
            JsonState { objs, cur, mode: JsonMode::Failed }
        },
        JsonMode::WantVal(k) => if c == '"' {
            JsonState { objs, cur, mode: JsonMode::InVal(k, String::new()) }
        } else if ws {
            JsonState { objs, cur, mode: JsonMode::WantVal(k) }
        } else {
            JsonState { objs, cur, mode: JsonMode::Failed }
        },
        JsonMode::InVal(k, a) => if c == '"' {
            let ghost c0 = cur@;
            cur.push((k, a));
            let r = JsonState { objs, cur, mode: JsonMode::AfterPair };
            proof {
                assert(r@.cur =~= st0.cur.push(
                    (st0.mode.arrow_InVal_0(), st0.mode.arrow_InVal_1()),
                ));
            }
            r
        } else if c == '\\' {
            JsonState { objs, cur, mode: JsonMode::InValEsc(k, a) }
        } else {
            let mut a = a;
            a.append(char_to_string(c).as_str());
            proof {
                assert(a@ =~= st0.mode.arrow_InVal_1().push(c));
            }
            JsonState { objs, cur, mode: JsonMode::InVal(k, a) }
        },
        JsonMode::InValEsc(k, a) => match escape_char(c) {
            Some(e) => {
                let mut a = a;
                a.append(char_to_string(e).as_str());
                proof {
                    assert(a@ =~= st0.mode.arrow_InValEsc_1().push(
                        escape_of(c).unwrap(),
                    ));
                }
                JsonState { objs, cur, mode: JsonMode::InVal(k, a) }
            },
            None => JsonState { objs, cur, mode: JsonMode::Failed },
        },
        JsonMode::AfterPair => if c == ',' {
            JsonState { objs, cur, mode: JsonMode::WantKey }
        } else if c == '}' {
            objs.push(cur);
            let r = JsonState { objs, cur: Vec::new(), mode: JsonMode::AfterObj };
            proof {
                assert(r@.objs =~= st0.objs.push(st0.cur));
                assert(pairs_model(r.cur@) =~= Seq::<(Seq<char>, Seq<char>)>::empty());
            }
            r
        } else if ws {
            JsonState { objs, cur, mode: JsonMode::AfterPair }
        } else {
            JsonState { objs, cur, mode: JsonMode::Failed }
        },
        JsonMode::AfterObj => if c == ',' {
            JsonState { objs, cur, mode: JsonMode::WantObj }
        } else if c == ']' {
            JsonState { objs, cur, mode: JsonMode::Done }
        } else if ws {
            JsonState { objs, cur, mode: JsonMode::AfterObj }
        } else {
            JsonState { objs, cur, mode: JsonMode::Failed }
        },
    }
}

/// Resolves one escape character.
fn escape_char(c: char) -> (r: Option<char>)
    ensures
        r == escape_of(c),
{
    if c == '"' {
        Some('"')
    } else if c == '\\' {
        Some('\\')
    } else if c == '/' {
        Some('/')
    } else if c == 'n' {
        Some('\n')
    } else if c == 'r' {
        Some('\r')
    } else if c == 't' {
        Some('\t')
    } else if c == 'b' {
        Some('\u{0008}')
    } else if c == 'f' {
        Some('\u{000c}')
    } else {
        None
    }
}

/// Reads a flat array of string objects, or nothing when the text steps
/// outside that shape.
pub fn parse_flat_objects(s: &str) -> (r: Option<Vec<Vec<(String, String)>>>)
    ensures
        match (r, spec_parse_flat_objects(s@)) {
            (Some(v), Some(m)) => v@.map_values(|o: Vec<(String, String)>| pairs_model(o@))
                == m,
            (None, None) => true,
            _ => false,
        },
{
    let chars = crate::text::string_chars(s);
    let mut st = JsonState { objs: Vec::new(), cur: Vec::new(), mode: JsonMode::Pre };
    let ghost st0 = st@;
    proof {
        assert(st0.objs =~= Seq::<PairsModel>::empty());
        assert(st0.cur =~= Seq::<(Seq<char>, Seq<char>)>::empty());
        assert(s@.skip(0) =~= s@);
    }
    let mut i: usize = 0;
    while i < chars.len()
        invariant
            chars@ == s@,
            i <= s@.len(),
            json_run(s@.skip(i as int), st@) == json_run(s@, st0),
        decreases s@.len() - i,
    {
        proof {
            assert(s@.skip(i as int)[0] == s@[i as int]);
            assert(s@.skip(i as int).drop_first() =~= s@.skip(i as int + 1));
        }
        st = json_step_exec(st, chars[i]);
        i += 1;
    }
    proof {
        assert(s@.skip(s@.len() as int) =~= Seq::<char>::empty());
    }
    match st.mode {
        JsonMode::Done => Some(st.objs),
        _ => None,
    }
}

} // verus!
