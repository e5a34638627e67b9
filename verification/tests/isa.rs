use modus_ponens::knowledge::KB;
use modus_ponens::matching::MPMatching;
use modus_ponens::parser::FactParser;
use modus_ponens::parsetree::ParseNode;

/// A hand-written reader of a grammar of nested facts:
/// `fact = { name ~ pred ~ name }`, `pred = @{ "ISA" | "IS" | "EQ" }`,
/// `name = _{ v_expr | var | v_atom }`, `v_expr = { "(" ~ pair ~ ("," ~ pair)* ~ ")" }`,
/// `pair = { label ~ ":" ~ name }`, sentences ending in `.`.
struct Isa;

fn node(name: &str, cs: &[char], start: usize, end: usize, children: Vec<ParseNode>) -> ParseNode {
    ParseNode { name: name.to_string(), text: cs[start..end].iter().collect(), children }
}

fn skip_ws(cs: &[char], mut i: usize) -> usize {
    while i < cs.len() && cs[i].is_whitespace() {
        i += 1;
    }
    i
}

fn word(cs: &[char], i: usize) -> usize {
    let mut j = i;
    while j < cs.len() && cs[j].is_ascii_alphanumeric() {
        j += 1;
    }
    j
}

fn name_at(cs: &[char], i: usize) -> Option<(ParseNode, usize)> {
    let i = skip_ws(cs, i);
    if i >= cs.len() {
        return None;
    }
    if cs[i] == '<' {
        let mut j = i + 1;
        while j < cs.len() && cs[j] != '>' {
            j += 1;
        }
        if j >= cs.len() {
            return None;
        }
        return Some((node("var", cs, i, j + 1, vec![]), j + 1));
    }
    if cs[i] == '(' {
        let mut pairs = vec![];
        let mut j = i + 1;
        loop {
            let (p, e) = pair_at(cs, j)?;
            pairs.push(p);
            let k = skip_ws(cs, e);
            if k < cs.len() && cs[k] == ',' {
                j = k + 1;
            } else if k < cs.len() && cs[k] == ')' {
                return Some((node("v_expr", cs, i, k + 1, pairs), k + 1));
            } else {
                return None;
            }
        }
    }
    let j = word(cs, i);
    if j == i {
        return None;
    }
    Some((node("v_atom", cs, i, j, vec![]), j))
}

fn pair_at(cs: &[char], i: usize) -> Option<(ParseNode, usize)> {
    let start = skip_ws(cs, i);
    let j = word(cs, start);
    if j == start {
        return None;
    }
    let label = node("label", cs, start, j, vec![]);
    let k = skip_ws(cs, j);
    if k >= cs.len() || cs[k] != ':' {
        return None;
    }
    let (value, end) = name_at(cs, k + 1)?;
    Some((node("pair", cs, start, end, vec![label, value]), end))
}

fn fact_at(cs: &[char], i: usize) -> Option<(ParseNode, usize)> {
    let start = skip_ws(cs, i);
    let (n1, e1) = name_at(cs, start)?;
    let ps = skip_ws(cs, e1);
    let pe = word(cs, ps);
    let pred: String = cs[ps..pe].iter().collect();
    if pred != "ISA" && pred != "IS" && pred != "EQ" {
        return None;
    }
    let p = node("pred", cs, ps, pe, vec![]);
    let (n2, end) = name_at(cs, pe)?;
    Some((node("fact", cs, start, end, vec![n1, p, n2]), end))
}

impl FactParser for Isa {
    fn parse_knowledge(&self, text: &str) -> Result<ParseNode, String> {
        let cs: Vec<char> = text.chars().collect();
        let mut facts = vec![];
        let mut i = 0;
        loop {
            let start = skip_ws(&cs, i);
            if start >= cs.len() {
                break;
            }
            let (f, e) = fact_at(&cs, start).ok_or("expected a fact".to_string())?;
            let k = skip_ws(&cs, e);
            if k >= cs.len() || cs[k] != '.' {
                return Err("expected a full stop".to_string());
            }
            facts.push(f);
            i = k + 1;
        }
        Ok(ParseNode { name: "knowledge".to_string(), text: text.to_string(), children: facts })
    }

    fn parse_fact(&self, text: &str) -> Option<ParseNode> {
        let cs: Vec<char> = text.chars().collect();
        fact_at(&cs, 0).map(|(f, _)| f)
    }

    fn parse_var_range(&self, text: &str) -> Option<ParseNode> {
        let cs: Vec<char> = text.chars().collect();
        name_at(&cs, 0).map(|(n, _)| n)
    }



    fn eval_num(&self, _expr: &str, _matching: &MPMatching) -> Option<String> {
        None
    }

    fn check_conditions(&self, _source: &str, _matching: &MPMatching) -> Option<bool> {
        None
    }
}

fn ask(kb: &mut KB<Isa>, q: &str) -> bool {
    kb.ask(q).ok().expect("an answer")
}

#[test]
fn factset_test_1() {
    let mut kb = KB::new(Isa);
    assert!(kb.tell("susan ISA person. john ISA person.").is_ok());
    assert_eq!(ask(&mut kb, "susan ISA person."), true);
    assert_eq!(ask(&mut kb, "pepe ISA person."), false);
    assert_eq!(ask(&mut kb, "john ISA person."), true);
    assert_eq!(ask(&mut kb, "<X0> ISA person."), true);
    assert_eq!(ask(&mut kb, "<X0> ISA animal."), false);
}

#[test]
fn test_2() {
    let mut kb = KB::new(Isa);
    assert!(kb
        .tell(
            "\
            susan ISA person.\
            john ISA person.\
            person IS animal.\
            (say: susan, what: (want: susan, what: (love: john, who: susan))) ISA fact.\
            (want: john, what: (love: john, who: susan)) ISA fact.\
            (love: susan, who: john) ISA fact."
        )
        .is_ok());
    assert_eq!(ask(&mut kb, "susan ISA person."), true);
    assert_eq!(ask(&mut kb, "pepe ISA person."), false);
    assert_eq!(ask(&mut kb, "john ISA person."), true);
    assert_eq!(ask(&mut kb, "<X0> ISA person."), true);
    assert_eq!(ask(&mut kb, "<X0> ISA animal."), false);
    assert_eq!(ask(&mut kb, "<X0> IS animal."), true);
    assert_eq!(ask(&mut kb, "(say: susan, what: (want: susan, what: <X0>)) ISA fact."), true);
    assert_eq!(ask(&mut kb, "(say: susan, what: (want: susan, what: (love: <X0>, who: susan))) ISA fact."), true);
    assert_eq!(ask(&mut kb, "(say: <X1>, what: (want: <X1>, what: (love: <X0>, who: <X1>))) ISA fact."), true);
    assert_eq!(ask(&mut kb, "(say: <X1>, want: (what: <X1>, what: (love: <X0>, who: <X1>))) ISA fact."), false);
    assert_eq!(ask(&mut kb, "(say: <X1>, what: (want: <X1>, what: (love: <X1>, who: <X1>))) ISA fact."), false);
    assert_eq!(ask(&mut kb, "(say: <X1>, what: (want: <X1>, what: <X1>)) ISA fact."), false);
    assert_eq!(ask(&mut kb, "(say: john, what: (want: susan, what: <X0>)) ISA fact."), false);
    assert_eq!(ask(&mut kb, "(want: <X0>, what: (love: <X0>, who: <X1>)) ISA fact."), true);
    assert_eq!(ask(&mut kb, "(want: <X0>, what: (love: <X0>, who: <X0>)) ISA fact."), false);
    assert_eq!(ask(&mut kb, "(say: susan, what: <X0>) ISA fact."), true);
    assert_eq!(ask(&mut kb, "(want: susan, what: <X0>) ISA fact."), false);
    assert_eq!(ask(&mut kb, "(want: john, what: <X0>) ISA fact."), true);
    assert_eq!(ask(&mut kb, "(love: john, who: susan) ISA fact."), false);
    assert_eq!(ask(&mut kb, "(love: susan, who: john) ISA fact."), true);
}

#[test]
fn test_3() {
    let mut kb = KB::new(Isa);
    assert!(kb.tell("(p1: (s: (s: 0)), p2: susan) ISA (fn: pr, on: (p1: nat, p2: people)).").is_ok());
    assert!(ask(&mut kb, "(p1: (s: (s: 0)), p2: susan) ISA (fn: pr, on: (p1: nat, p2: people))."));
    assert!(ask(&mut kb, "(p1: (s: <X0>), p2: susan) ISA (fn: pr, on: (p1: nat, p2: people))."));
    assert!(ask(&mut kb, "(p1: <X0>, p2: susan) ISA (fn: pr, on: (p1: nat, p2: people))."));
}

#[test]
fn test_fs_4() {
    let mut kb = KB::new(Isa);
    assert!(kb.tell("(p1: (s: 0), p2: john) ISA (fn: pr, on: (p1: nat, p2: people)).").is_ok());
    assert!(kb.tell("(p1: (s: (s: 0)), p2: susan) ISA (fn: pr, on: (p1: nat, p2: people)).").is_ok());
    assert!(ask(&mut kb, "(p1: <X0>, p2: susan) ISA (fn: pr, on: (p1: nat, p2: people))."));
}

#[test]
fn test_fs_5() {
    let mut kb = KB::new(Isa);
    assert!(kb.tell("(p1: (s: 0), p2: john) ISA fact.").is_ok());
    assert!(kb.tell("(p1: (s: (s: 0)), p2: susan) ISA fact.").is_ok());
    assert!(ask(&mut kb, "(p1: <X0>, p2: susan) ISA fact."));
}
