//! The command line.
use crate::chars::{
    chars_of, copy_text, first_index, same_text, starts_with_chars, string_of, texts,
};
use crate::numerals::{hex, hex_text, parse_hex, unhex};
use vstd::prelude::*;
use vstd::slice::slice_subrange;

verus! {

/// The options of a command.
pub struct Opts {
    pub pos: Vec<String>,
    pub pipe: bool,
    pub memory: bool,
    pub accept: bool,
    pub metrics: Option<String>,
    pub manifest: Option<String>,
    pub process: Option<String>,
    pub signal: Option<String>,
}

/// What the options say.
pub struct OptsView {
    pub pos: Seq<Seq<char>>,
    pub pipe: bool,
    pub memory: bool,
    pub accept: bool,
    pub metrics: Option<Seq<char>>,
    pub manifest: Option<Seq<char>>,
    pub process: Option<Seq<char>>,
    pub signal: Option<Seq<char>>,
}

/// A text that may be absent.
pub open spec fn opt(s: Option<String>) -> Option<Seq<char>> {
    match s {
        Some(x) => Some(x@),
        None => None,
    }
}

impl View for Opts {
    type V = OptsView;

    open spec fn view(&self) -> OptsView {
        OptsView {
            pos: texts(self.pos@),
            pipe: self.pipe,
            memory: self.memory,
            accept: self.accept,
            metrics: opt(self.metrics),
            manifest: opt(self.manifest),
            process: opt(self.process),
            signal: opt(self.signal),
        }
    }
}

/// The options of an empty command line.
pub open spec fn no_opts() -> OptsView {
    OptsView {
        pos: Seq::empty(),
        pipe: false,
        memory: false,
        accept: false,
        metrics: None,
        manifest: None,
        process: None,
        signal: None,
    }
}

/// The argument at a place, if there is one.
pub open spec fn arg_at(args: Seq<Seq<char>>, i: int) -> Option<Seq<char>> {
    if 0 <= i < args.len() {
        Some(args[i])
    } else {
        None
    }
}

/// The options after the arguments from `i` on. Some flags take the argument
/// behind them as their value; a flag that is not known is passed over.
pub open spec fn opts_from(args: Seq<Seq<char>>, i: int, o: OptsView) -> OptsView
    decreases args.len() + 1 - i,
{
    if i < 0 || i >= args.len() {
        o
    } else {
        let a = args[i];
        let v = arg_at(args, i + 1);
        if a == "--pipe"@ {
            opts_from(args, i + 1, OptsView { pipe: true, ..o })
        } else if a == "--memory"@ {
            opts_from(args, i + 1, OptsView { memory: true, ..o })
        } else if a == "--accept"@ {
            opts_from(args, i + 1, OptsView { accept: true, ..o })
        } else if a == "--metrics"@ {
            opts_from(args, i + 2, OptsView { metrics: v, ..o })
        } else if a == "--manifest"@ {
            opts_from(args, i + 2, OptsView { manifest: v, ..o })
        } else if a == "--process"@ {
            opts_from(args, i + 2, OptsView { process: v, ..o })
        } else if a == "--signal"@ {
            opts_from(args, i + 2, OptsView { signal: v, ..o })
        } else if "--"@.is_prefix_of(a) {
            opts_from(args, i + 1, o)
        } else {
            opts_from(args, i + 1, OptsView { pos: o.pos.push(a), ..o })
        }
    }
}

/// The argument at a place, if there is one.
fn value_at(args: &[String], i: usize) -> (r: Option<String>)
    ensures
        opt(r) == arg_at(texts(args@), i as int),
{
    if i < args.len() {
        assert(texts(args@)[i as int] == args@[i as int]@);
        Some(copy_text(args[i].as_str()))
    } else {
        None
    }
}

/// The options of a command line. The first two arguments are the program and the
/// command.
pub fn parse(args: &[String]) -> (r: Opts)
    ensures
        r@ == opts_from(texts(args@), 2, no_opts()),
{
    let ghost all = texts(args@);
    let mut o = Opts {
        pos: Vec::new(),
        pipe: false,
        memory: false,
        accept: false,
        metrics: None,
        manifest: None,
        process: None,
        signal: None,
    };
    let dashes = chars_of("--");
    assert(o@.pos =~= Seq::empty());
    let n: usize = args.len();
    let mut i: usize = 2;
    while i < n
        invariant
            n == args@.len(),
            all == texts(args@),
            dashes@ == "--"@,
            2 <= i,
            opts_from(all, 2, no_opts()) == opts_from(all, i as int, o@),
        decreases n + 1 - i,
    {
        let a = args[i].as_str();
        assert(all[i as int] == a@);
        let ghost o0 = o@;
        if same_text(a, "--pipe") {
            o.pipe = true;
        } else if same_text(a, "--memory") {
            o.memory = true;
        } else if same_text(a, "--accept") {
            o.accept = true;
        } else if same_text(a, "--metrics") {
            o.metrics = value_at(args, i + 1);
            i += 1;
        } else if same_text(a, "--manifest") {
            o.manifest = value_at(args, i + 1);
            i += 1;
        } else if same_text(a, "--process") {
            o.process = value_at(args, i + 1);
            i += 1;
        } else if same_text(a, "--signal") {
            o.signal = value_at(args, i + 1);
            i += 1;
        } else {
            let cs = chars_of(a);
            if !starts_with_chars(cs.as_slice(), dashes.as_slice()) {
                let ghost before = o.pos@;
                o.pos.push(copy_text(a));
                assert(texts(o.pos@) =~= texts(before).push(a@));
            }
        }
        proof {
            assert(opts_from(all, n as int, o@) == o@);
            assert(opts_from(all, n + 1, o@) == o@);
        }
        if i < n {
            i += 1;
        }
    }
    o
}

/// The first place of a text in a list; the length of the list if it has none.
pub open spec fn first_place(args: Seq<Seq<char>>, name: Seq<char>, i: int) -> int
    decreases args.len() - i,
{
    if i >= args.len() || args[i] == name {
        i
    } else {
        first_place(args, name, i + 1)
    }
}

/// The argument behind the first occurrence of a flag.
pub fn flag_value(args: &[String], name: &str) -> (r: Option<String>)
    ensures
        opt(r) == arg_at(texts(args@), first_place(texts(args@), name@, 0) + 1),
{
    let ghost all = texts(args@);
    let mut i: usize = 0;
    while i < args.len()
        invariant
            i <= args@.len(),
            all == texts(args@),
            first_place(all, name@, 0) == first_place(all, name@, i as int),
        decreases args@.len() - i,
    {
        assert(all[i as int] == args@[i as int]@);
        if same_text(args[i].as_str(), name) {
            return value_at(args, i + 1);
        }
        i += 1;
    }
    None
}

/// Where the list of what is kept in memory goes: where the option says, else to
/// `process` where things are kept in memory, else nowhere.
pub fn process_path(opts: &Opts) -> (r: Option<String>)
    ensures
        opt(r) == (match opts@.process {
            Some(p) => Some(p),
            None => if opts@.memory {
                Some("process"@)
            } else {
                None
            },
        }),
{
    match &opts.process {
        Some(p) => Some(copy_text(p.as_str())),
        None => if opts.memory {
            Some(copy_text("process"))
        } else {
            None
        },
    }
}

/// What stands behind the last `#` of a text; the whole text if it has none.
pub open spec fn fragment(s: Seq<char>) -> Seq<char>
    decreases s.len(),
    when true
    via fragment_decreases
{
    if first_index(s, '#') >= s.len() {
        s
    } else {
        fragment(s.skip(first_index(s, '#') + 1))
    }
}

#[via_fn]
proof fn fragment_decreases(s: Seq<char>) {
    crate::chars::lemma_first_index(s, '#');
}

/// What stands behind the last `#` of a text; the whole text if it has none. A
/// link carries its invitation there.
pub fn link_target(s: &str) -> (r: String)
    ensures
        r@ == fragment(s@),
{
    let cs = chars_of(s);
    let mut from: usize = 0;
    assert(cs@.skip(0) =~= cs@);
    loop
        invariant
            from <= cs@.len(),
            cs@ == s@,
            fragment(s@) == fragment(cs@.skip(from as int)),
        decreases cs@.len() - from,
    {
        let rest = slice_subrange(cs.as_slice(), from, cs.len());
        assert(rest@ =~= cs@.skip(from as int));
        let i = crate::chars::find_char(rest, '#');
        if i >= rest.len() {
            return string_of(rest);
        }
        assert(rest@.skip(i + 1) =~= cs@.skip(from + i + 1));
        from = from + i + 1;
    }
}

/// The text of an invitation to a swarm: its bytes in hexadecimal.
pub fn encode_mesh_ticket(addr: &[u8]) -> (r: String)
    ensures
        r@ == hex(addr@),
{
    hex_text(addr)
}

/// The bytes of an invitation to a swarm, if the text can be one.
pub fn decode_mesh_ticket(s: &str) -> (r: Option<Vec<u8>>)
    ensures
        match r {
            Some(b) => s@.len() > 0 && unhex(s@) == Some(b@),
            None => s@.len() == 0 || unhex(s@) is None,
        },
{
    let cs = chars_of(s);
    if cs.len() == 0 {
        return None;
    }
    parse_hex(cs.as_slice())
}

// ---------------------------------------------------------------------------
// Laws
// ---------------------------------------------------------------------------

proof fn lemma_opts_shift(front: Seq<Seq<char>>, args: Seq<Seq<char>>, i: int, o: OptsView)
    requires
        0 <= i,
    ensures
        opts_from(front + args, front.len() + i, o) == opts_from(args, i, o),
    decreases args.len() + 1 - i,
{
    let all = front + args;
    let k = front.len() + i;
    if i < args.len() {
        let a = args[i];
        let v = arg_at(args, i + 1);
        assert(all[k] == a);
        assert(arg_at(all, k + 1) == v) by {
            if i + 1 < args.len() {
                assert(all[k + 1] == args[i + 1]);
            }
        }
        lemma_opts_shift(front, args, i + 1, OptsView { pipe: true, ..o });
        lemma_opts_shift(front, args, i + 1, OptsView { memory: true, ..o });
        lemma_opts_shift(front, args, i + 1, OptsView { accept: true, ..o });
        lemma_opts_shift(front, args, i + 1, o);
        lemma_opts_shift(front, args, i + 1, OptsView { pos: o.pos.push(a), ..o });
        lemma_opts_shift(front, args, i + 2, OptsView { metrics: v, ..o });
        lemma_opts_shift(front, args, i + 2, OptsView { manifest: v, ..o });
        lemma_opts_shift(front, args, i + 2, OptsView { process: v, ..o });
        lemma_opts_shift(front, args, i + 2, OptsView { signal: v, ..o });
    }
}

/// What each argument does: `--pipe`, `--memory` and `--accept` are set, `--metrics`,
/// `--manifest`, `--process` and `--signal` take the argument behind them, other flags are
/// passed over, and what is no flag is kept in its place.
pub proof fn law_arguments_do_what_they_say(
    a: Seq<char>,
    v: Seq<char>,
    rest: Seq<Seq<char>>,
    o: OptsView,
)
    ensures
        opts_from(Seq::empty(), 0, o) == o,
        opts_from(seq!["--pipe"@] + rest, 0, o) == opts_from(rest, 0, OptsView { pipe: true, ..o }),
        opts_from(seq!["--memory"@] + rest, 0, o) == opts_from(
            rest,
            0,
            OptsView { memory: true, ..o },
        ),
        opts_from(seq!["--accept"@] + rest, 0, o) == opts_from(
            rest,
            0,
            OptsView { accept: true, ..o },
        ),
        opts_from(seq!["--metrics"@, v] + rest, 0, o) == opts_from(
            rest,
            0,
            OptsView { metrics: Some(v), ..o },
        ),
        opts_from(seq!["--manifest"@, v] + rest, 0, o) == opts_from(
            rest,
            0,
            OptsView { manifest: Some(v), ..o },
        ),
        opts_from(seq!["--process"@, v] + rest, 0, o) == opts_from(
            rest,
            0,
            OptsView { process: Some(v), ..o },
        ),
        opts_from(seq!["--signal"@, v] + rest, 0, o) == opts_from(
            rest,
            0,
            OptsView { signal: Some(v), ..o },
        ),
        a.len() < 2 || a[0] != '-' || a[1] != '-' ==> opts_from(seq![a] + rest, 0, o) == opts_from(
            rest,
            0,
            OptsView { pos: o.pos.push(a), ..o },
        ),
{
    reveal_strlit("--pipe");
    reveal_strlit("--memory");
    reveal_strlit("--accept");
    reveal_strlit("--metrics");
    reveal_strlit("--manifest");
    reveal_strlit("--process");
    reveal_strlit("--signal");
    reveal_strlit("--");
    lemma_opts_shift(seq!["--pipe"@], rest, 0, OptsView { pipe: true, ..o });
    assert("--pipe"@[3] == 'i');
    assert("--memory"@[2] == 'm' && "--memory"@[4] == 'm');
    assert("--accept"@[2] == 'a');
    assert("--metrics"@[2] == 'm' && "--metrics"@[4] == 't');
    assert("--manifest"@[2] == 'm' && "--manifest"@[3] == 'a');
    assert("--memory"@[3] == 'e');
    assert("--metrics"@[3] == 'e');
    assert("--process"@[2] == 'p' && "--process"@[3] == 'r');
    assert("--pipe"@[2] == 'p');
    assert("--signal"@[2] == 's');
    lemma_opts_shift(seq!["--memory"@], rest, 0, OptsView { memory: true, ..o });
    lemma_opts_shift(seq!["--accept"@], rest, 0, OptsView { accept: true, ..o });
    lemma_opts_shift(seq!["--metrics"@, v], rest, 0, OptsView { metrics: Some(v), ..o });
    lemma_opts_shift(seq!["--manifest"@, v], rest, 0, OptsView { manifest: Some(v), ..o });
    lemma_opts_shift(seq!["--process"@, v], rest, 0, OptsView { process: Some(v), ..o });
    lemma_opts_shift(seq!["--signal"@, v], rest, 0, OptsView { signal: Some(v), ..o });
    lemma_opts_shift(seq![a], rest, 0, OptsView { pos: o.pos.push(a), ..o });
    assert((seq!["--metrics"@, v] + rest)[1] == v);
    assert((seq!["--manifest"@, v] + rest)[1] == v);
    assert((seq!["--process"@, v] + rest)[1] == v);
    assert((seq!["--signal"@, v] + rest)[1] == v);
    if a.len() < 2 || a[0] != '-' || a[1] != '-' {
        assert(!"--"@.is_prefix_of(a)) by {
            if "--"@.is_prefix_of(a) {
                assert(a[0] == "--"@[0] && a[1] == "--"@[1]);
            }
        }
        assert("--pipe"@[0] == '-' && "--pipe"@[1] == '-');
        assert("--memory"@[0] == '-' && "--memory"@[1] == '-');
        assert("--accept"@[0] == '-' && "--accept"@[1] == '-');
        assert("--metrics"@[0] == '-' && "--metrics"@[1] == '-');
        assert("--manifest"@[0] == '-' && "--manifest"@[1] == '-');
        assert("--process"@[0] == '-' && "--process"@[1] == '-');
        assert("--signal"@[0] == '-' && "--signal"@[1] == '-');
        assert((seq![a] + rest)[0] == a);
    }
}

/// The invitation of a link stands behind its last `#`; a text without one is the
/// invitation itself.
pub proof fn law_links_carry_their_target(front: Seq<char>, target: Seq<char>)
    requires
        !target.contains('#'),
    ensures
        fragment(target) == target,
        fragment(front + seq!['#'] + target) == target,
    decreases front.len(),
{
    assert forall|j: int| 0 <= j < target.len() implies target[j] != '#' by {
        assert(target.contains(target[j]));
    }
    crate::chars::lemma_first_index_is(target, '#', target.len() as int);
    let s = front + seq!['#'] + target;
    crate::chars::lemma_first_index(front, '#');
    let i = first_index(front, '#');
    if i < front.len() {
        let rest = front.skip(i + 1);
        law_links_carry_their_target(rest, target);
        assert forall|j: int| 0 <= j < i implies s[j] != '#' by {
            assert(s[j] == front[j]);
        }
        crate::chars::lemma_first_index_is(s, '#', i);
        assert(s.skip(i + 1) =~= rest + seq!['#'] + target);
    } else {
        assert forall|j: int| 0 <= j < front.len() implies s[j] != '#' by {
            assert(s[j] == front[j]);
        }
        crate::chars::lemma_first_index_is(s, '#', front.len() as int);
        assert(s.skip(front.len() as int + 1) =~= target);
    }
}

/// The value of a flag is the argument behind its first occurrence.
pub proof fn law_the_first_flag_counts(
    front: Seq<Seq<char>>,
    name: Seq<char>,
    rest: Seq<Seq<char>>,
)
    requires
        !front.contains(name),
    ensures
        arg_at(front + seq![name] + rest, first_place(front + seq![name] + rest, name, 0) + 1) == (
        if rest.len() > 0 {
            Some(rest[0])
        } else {
            None
        }),
        arg_at(front, first_place(front, name, 0) + 1) is None,
{
    let all = front + seq![name] + rest;
    lemma_first_place(all, name, 0, front.len() as int);
    lemma_first_place(front, name, 0, front.len() as int);
    if rest.len() > 0 {
        assert(all[front.len() as int + 1] == rest[0]);
    }
}

proof fn lemma_first_place(args: Seq<Seq<char>>, name: Seq<char>, i: int, k: int)
    requires
        0 <= i <= k <= args.len(),
        k < args.len() ==> args[k] == name,
        !args.take(k).contains(name),
    ensures
        first_place(args, name, i) == k,
    decreases k - i,
{
    if i < k {
        assert(args.take(k)[i] == args[i]);
        assert(args.take(k).contains(args[i]));
        lemma_first_place(args, name, i + 1, k);
    }
}

/// An invitation that is written reads back as the same address.
pub proof fn law_invitations_read_back(addr: Seq<u8>)
    ensures
        unhex(hex(addr)) == Some(addr),
{
    crate::numerals::lemma_unhex_hex(addr);
}

} // verus!
