//! Whether this process can see the machine at all.
//!
//! Everything else reports what could be read. On a host that withholds the
//! socket tables, "nothing is connected" and "not allowed to look" would come
//! out alike, and a view that silently drops rows is worse than no view,
//! because it is trusted. So before an empty result is believed, the
//! instrument is checked.
//!
//! The check is a comparison, not a guess: `/proc/net/dev` is readable when
//! the socket tables are not, and it counts packets. Interfaces that have
//! carried traffic, with no sockets to show for it, mean that the tables are
//! being withheld.

use vstd::prelude::*;
use vstd::string::*;

use crate::num::{dec, decimal, push_dec, read_decimal};
use crate::text::{
    borrow_opt, contains, copy, copy_opt, cut, holds, lines, lines_of, lower, lowered, opt_string,
    opt_text, same, split_once, texts, trim, trimmed, words, words_of,
};

verus! {

/// How much of the machine this process can actually see.
#[derive(Debug, Clone, Copy, PartialEq, Eq, Structural)]
pub enum Sight {
    /// Sockets readable, and other processes' file descriptors too.
    Full,
    /// Sockets readable, but no process other than ours can be inspected, so
    /// most connections will be attributed to nobody.
    OwnProcessOnly,
    /// The socket tables exist and report nothing, while the interfaces say
    /// otherwise. The kernel is withholding them.
    TablesWithheld,
    /// There is no `/proc/net` to read.
    NoProcNet,
}

impl Sight {
    /// Whether an empty result can be believed.
    pub open spec fn trusted(self) -> bool {
        self is Full || self is OwnProcessOnly
    }

    pub open spec fn name(self) -> Seq<char> {
        match self {
            Sight::Full => "full"@,
            Sight::OwnProcessOnly => "own-process-only"@,
            Sight::TablesWithheld => "tables-withheld"@,
            Sight::NoProcNet => "no-proc-net"@,
        }
    }

    pub open spec fn sentence(self) -> Seq<char> {
        match self {
            Sight::Full => "reading this machine"@,
            Sight::OwnProcessOnly => "can see connections, but not which programs own them"@,
            Sight::TablesWithheld => "CANNOT SEE — this system is withholding the socket tables"@,
            Sight::NoProcNet => "CANNOT SEE — there is no /proc/net on this system"@,
        }
    }

    /// Whether an empty result can be believed.
    pub fn can_be_trusted(self) -> (r: bool)
        ensures
            r == self.trusted(),
    {
        match self {
            Sight::Full | Sight::OwnProcessOnly => true,
            Sight::TablesWithheld | Sight::NoProcNet => false,
        }
    }

    /// Lower-case tag for the UI.
    pub fn tag(self) -> (r: &'static str)
        ensures
            r@ == self.name(),
    {
        match self {
            Sight::Full => "full",
            Sight::OwnProcessOnly => "own-process-only",
            Sight::TablesWithheld => "tables-withheld",
            Sight::NoProcNet => "no-proc-net",
        }
    }
}

/// What the instrument check found.
#[derive(Debug, PartialEq, Eq)]
pub struct Visibility {
    pub sight: Sight,
    /// The measurement that settled it, in words.
    pub evidence: String,
    /// What a person could do about it, when there is something.
    pub remedy: Option<String>,
    /// Android restricts this differently and the remedy differs with it.
    pub android: bool,
}

/// What a [`Visibility`] says.
pub struct VisibilityView {
    pub sight: Sight,
    pub evidence: Seq<char>,
    pub remedy: Option<Seq<char>>,
    pub android: bool,
}

impl View for Visibility {
    type V = VisibilityView;

    open spec fn view(&self) -> VisibilityView {
        VisibilityView {
            sight: self.sight,
            evidence: self.evidence@,
            remedy: opt_string(self.remedy),
            android: self.android,
        }
    }
}

impl Clone for Visibility {
    fn clone(&self) -> (r: Self)
        ensures
            r@ == self@,
    {
        Visibility {
            sight: self.sight,
            evidence: copy(self.evidence.as_str()),
            remedy: copy_opt(&self.remedy),
            android: self.android,
        }
    }
}

impl Visibility {
    /// One sentence for a status line.
    pub fn headline(&self) -> (r: String)
        ensures
            r@ == self.sight.sentence(),
    {
        match self.sight {
            Sight::Full => String::from_str("reading this machine"),
            Sight::OwnProcessOnly => String::from_str(
                "can see connections, but not which programs own them",
            ),
            Sight::TablesWithheld => String::from_str(
                "CANNOT SEE — this system is withholding the socket tables",
            ),
            Sight::NoProcNet => String::from_str(
                "CANNOT SEE — there is no /proc/net on this system",
            ),
        }
    }
}

/// Whether a line of `/proc/net/dev` is an interface that has carried packets.
///
/// Loopback is excluded: it is always busy and says nothing about whether the
/// machine has been on a network.
pub open spec fn carried(line: Seq<char>) -> bool {
    match split_once(line, ':') {
        Some((name, rest)) => {
            let w = words(rest);
            &&& trim(name) != "lo"@
            &&& w.len() > 8
            &&& decimal(w[0], 0xffff_ffff_ffff_ffff) is Some
            &&& decimal(w[8], 0xffff_ffff_ffff_ffff) is Some
            &&& decimal(w[0], 0xffff_ffff_ffff_ffff)->0 > 0 || decimal(
                w[8],
                0xffff_ffff_ffff_ffff,
            )->0 > 0
        },
        None => false,
    }
}

/// How many of the lines are interfaces that have carried packets.
pub open spec fn carriers(ls: Seq<Seq<char>>) -> nat
    decreases ls.len(),
{
    if ls.len() == 0 {
        0
    } else {
        carriers(ls.drop_last()) + if carried(ls.last()) {
            1nat
        } else {
            0
        }
    }
}

/// How many interfaces of `/proc/net/dev` have carried packets: the file has
/// two header lines, and one that cannot be read has none.
pub open spec fn busy_interfaces(dev: Option<Seq<char>>) -> nat {
    match dev {
        Some(t) => if lines(t).len() < 2 {
            0
        } else {
            carriers(lines(t).skip(2))
        },
        None => 0,
    }
}

fn has_carried(line: &str) -> (r: bool)
    ensures
        r == carried(line@),
{
    match cut(line, ':') {
        Some((name, rest)) => {
            let w: Vec<String> = words_of(rest.as_str());
            assert(texts(w@).len() == w@.len());
            if same(trimmed(name.as_str()).as_str(), "lo") || w.len() <= 8 {
                return false;
            }
            assert(texts(w@)[0] == w@[0]@ && texts(w@)[8] == w@[8]@);
            match (
                read_decimal(w[0].as_str(), 0xffff_ffff_ffff_ffff),
                read_decimal(w[8].as_str(), 0xffff_ffff_ffff_ffff),
            ) {
                (Some(rx), Some(tx)) => rx > 0 || tx > 0,
                _ => false,
            }
        },
        None => false,
    }
}

/// Interfaces that have carried packets, from the text of `/proc/net/dev`.
/// `None` stands for a file that could not be read.
pub fn interfaces_with_traffic(dev: Option<&str>) -> (r: usize)
    ensures
        r == busy_interfaces(opt_text(dev)),
{
    let text: &str = match dev {
        Some(t) => t,
        None => {
            return 0;
        },
    };
    let ls: Vec<String> = lines_of(text);
    if ls.len() < 2 {
        return 0;
    }
    let ghost all = lines(text@).skip(2);
    let mut n: usize = 0;
    let mut i: usize = 2;
    assert(all.take(0) =~= Seq::<Seq<char>>::empty());
    while i < ls.len()
        invariant
            2 <= i <= ls@.len(),
            texts(ls@) == lines(text@),
            all == lines(text@).skip(2),
            n == carriers(all.take(i - 2)),
            n <= i,
        decreases ls@.len() - i,
    {
        assert(all.take(i - 1).drop_last() =~= all.take(i - 2));
        assert(all.take(i - 1).last() == ls@[i as int]@);
        if has_carried(ls[i].as_str()) {
            n += 1;
        }
        i += 1;
    }
    assert(all.take(i - 2) =~= all);
    n
}

/// What was read of a machine to check the instrument.
#[derive(Debug)]
pub struct ProcFacts {
    /// Where `/proc` was looked for.
    pub root: String,
    /// Whether `net/tcp` and `net/tcp6` exist there.
    pub has_tcp: bool,
    pub has_tcp6: bool,
    /// The text of `net/dev`, where it could be read.
    pub net_dev: Option<String>,
    /// The text of `version`, where it could be read.
    pub version: Option<String>,
    /// Whether `/system/build.prop` exists.
    pub build_prop: bool,
    /// Whether `TERMUX_VERSION` is set.
    pub termux: bool,
}

/// What [`ProcFacts`] say.
pub struct ProcFactsView {
    pub root: Seq<char>,
    pub has_tcp: bool,
    pub has_tcp6: bool,
    pub net_dev: Option<Seq<char>>,
    pub version: Option<Seq<char>>,
    pub build_prop: bool,
    pub termux: bool,
}

impl View for ProcFacts {
    type V = ProcFactsView;

    open spec fn view(&self) -> ProcFactsView {
        ProcFactsView {
            root: self.root@,
            has_tcp: self.has_tcp,
            has_tcp6: self.has_tcp6,
            net_dev: opt_string(self.net_dev),
            version: opt_string(self.version),
            build_prop: self.build_prop,
            termux: self.termux,
        }
    }
}

impl ProcFactsView {
    /// Whether a machine looks like Android.
    pub open spec fn android(self) -> bool {
        ||| self.version matches Some(v) && contains(lower(v), "android"@)
        ||| self.build_prop
        ||| self.termux
    }

    /// What a person could do to see more.
    pub open spec fn privilege(self) -> Seq<char> {
        if self.android() {
            "Android does not expose other processes' sockets to an unprivileged app. A rooted device can, with su; otherwise this machine cannot be read from here."@
        } else {
            "run it as root — most sockets on a machine belong to other users"@
        }
    }

    /// What the check finds, for the rows the tables gave and how many of them
    /// could be traced to a process.
    pub open spec fn assessment(self, rows: nat, attributable: nat) -> VisibilityView {
        if !self.has_tcp && !self.has_tcp6 {
            VisibilityView {
                sight: Sight::NoProcNet,
                evidence: self.root + "/net/tcp and tcp6 do not exist"@,
                remedy: None,
                android: self.android(),
            }
        } else if rows == 0 && busy_interfaces(self.net_dev) > 0 {
            VisibilityView {
                sight: Sight::TablesWithheld,
                evidence: "the socket tables yielded no rows, while "@ + dec(
                    busy_interfaces(self.net_dev),
                ) + " interface(s) in /proc/net/dev have carried packets. A machine that has moved traffic and reports no sockets is not idle — it is not telling us."@,
                remedy: Some(self.privilege()),
                android: self.android(),
            }
        } else if rows > 0 && attributable == 0 {
            VisibilityView {
                sight: Sight::OwnProcessOnly,
                evidence: dec(rows)
                    + " socket(s) readable, but none could be traced to a process: no /proc/<pid>/fd outside this process is readable."@,
                remedy: Some(self.privilege()),
                android: self.android(),
            }
        } else {
            VisibilityView {
                sight: Sight::Full,
                evidence: dec(rows) + " socket(s), "@ + dec(attributable)
                    + " attributed to a process"@,
                remedy: None,
                android: self.android(),
            }
        }
    }
}

/// Whether this looks like Android.
///
/// Worth naming, because the remedy there is not "run with sudo" and a person
/// told to do that will conclude the tool is broken.
pub fn is_android(facts: &ProcFacts) -> (r: bool)
    ensures
        r == facts@.android(),
{
    let named: bool = match &facts.version {
        Some(v) => holds(lowered(v.as_str()).as_str(), "android"),
        None => false,
    };
    named || facts.build_prop || facts.termux
}

fn privileged_remedy(facts: &ProcFacts) -> (r: String)
    ensures
        r@ == facts@.privilege(),
{
    if is_android(facts) {
        String::from_str(
            "Android does not expose other processes' sockets to an unprivileged app. A rooted device can, with su; otherwise this machine cannot be read from here.",
        )
    } else {
        String::from_str("run it as root — most sockets on a machine belong to other users")
    }
}

/// Check the instrument before trusting what it reports.
///
/// `socket_rows` is how many rows the socket tables actually yielded, and
/// `attributable` how many of them could be traced to a process. Passing them
/// in keeps this function free of the parsing it is checking.
pub fn assess(facts: &ProcFacts, socket_rows: usize, attributable: usize) -> (r: Visibility)
    ensures
        r@ == facts@.assessment(socket_rows as nat, attributable as nat),
{
    let android: bool = is_android(facts);
    if !facts.has_tcp && !facts.has_tcp6 {
        let mut evidence: String = copy(facts.root.as_str());
        evidence.append("/net/tcp and tcp6 do not exist");
        return Visibility { sight: Sight::NoProcNet, evidence, remedy: None, android };
    }
    let busy: usize = interfaces_with_traffic(borrow_opt(&facts.net_dev));
    if socket_rows == 0 && busy > 0 {
        let mut evidence: String = String::from_str("the socket tables yielded no rows, while ");
        push_dec(&mut evidence, busy as u64);
        evidence.append(
            " interface(s) in /proc/net/dev have carried packets. A machine that has moved traffic and reports no sockets is not idle — it is not telling us.",
        );
        return Visibility {
            sight: Sight::TablesWithheld,
            evidence,
            remedy: Some(privileged_remedy(facts)),
            android,
        };
    }
    let mut evidence: String = crate::num::dec_of(socket_rows as u64);
    if socket_rows > 0 && attributable == 0 {
        evidence.append(
            " socket(s) readable, but none could be traced to a process: no /proc/<pid>/fd outside this process is readable.",
        );
        return Visibility {
            sight: Sight::OwnProcessOnly,
            evidence,
            remedy: Some(privileged_remedy(facts)),
            android,
        };
    }
    evidence.append(" socket(s), ");
    push_dec(&mut evidence, attributable as u64);
    evidence.append(" attributed to a process");
    Visibility { sight: Sight::Full, evidence, remedy: None, android }
}

// ---------------------------------------------------------------------------
// Laws
// ---------------------------------------------------------------------------

/// An empty reading is believed only where there are tables to read and no
/// interface has carried a packet; everywhere else an empty reading is a
/// refusal.
pub proof fn an_empty_reading_is_believed_only_where_nothing_moved(facts: ProcFactsView)
    ensures
        facts.assessment(0, 0).sight.trusted() <==> (facts.has_tcp || facts.has_tcp6)
            && busy_interfaces(facts.net_dev) == 0,
{
}

/// Where rows could be read and there are tables, the rows are believed,
/// whether or not anybody is seen to own them.
pub proof fn rows_that_were_read_are_believed(facts: ProcFactsView, rows: nat, attributable: nat)
    requires
        rows > 0,
        facts.has_tcp || facts.has_tcp6,
    ensures
        facts.assessment(rows, attributable).sight.trusted(),
        facts.assessment(rows, attributable).sight is Full <==> attributable > 0,
{
}

/// A remedy is offered exactly where more privilege could show more: not where
/// everything is seen, and not where there is nothing to see.
pub proof fn a_remedy_is_offered_where_privilege_helps(
    facts: ProcFactsView,
    rows: nat,
    attributable: nat,
)
    ensures
        facts.assessment(rows, attributable).remedy is Some <==> facts.assessment(
            rows,
            attributable,
        ).sight is TablesWithheld || facts.assessment(rows, attributable).sight is OwnProcessOnly,
{
}

/// Loopback never counts as traffic.
pub proof fn loopback_is_never_a_carrier(line: Seq<char>, name: Seq<char>, rest: Seq<char>)
    requires
        split_once(line, ':') == Some((name, rest)),
        trim(name) == "lo"@,
    ensures
        !carried(line),
{
}

/// An interface has carried packets where either of its two counts of bytes, the
/// first word behind its name for what came in and the ninth for what went out,
/// is more than nothing, unless it is the loopback.
pub proof fn an_interface_has_carried_what_it_counts(
    name: Seq<char>,
    rest: Seq<char>,
    received: u64,
    sent: u64,
)
    requires
        !name.contains(':'),
        words(rest).len() > 8,
        words(rest)[0] == dec(received as nat),
        words(rest)[8] == dec(sent as nat),
    ensures
        carried(name + seq![':'] + rest) <==> trim(name) != "lo"@ && (received > 0 || sent > 0),
{
    let line = name + seq![':'] + rest;
    assert forall|j: int| 0 <= j < name.len() implies #[trigger] line[j] != ':' by {
        assert(line[j] == name[j]);
        assert(name.contains(name[j]));
    }
    crate::text::lemma_find_char_is(line, ':', name.len() as int);
    assert(line.take(name.len() as int) =~= name);
    assert(line.skip(name.len() as int + 1) =~= rest);
    crate::num::dec_reads_back(received as nat, 0xffff_ffff_ffff_ffff);
    crate::num::dec_reads_back(sent as nat, 0xffff_ffff_ffff_ffff);
}

/// The lines behind the two of the header are counted one by one.
pub proof fn every_interface_is_counted(ls: Seq<Seq<char>>, line: Seq<char>)
    requires
        ls.len() >= 2,
        forall|k: int| 0 <= k < ls.len() ==> crate::text::is_line(#[trigger] ls[k]),
        crate::text::is_line(line),
    ensures
        busy_interfaces(Some(crate::text::unlines(ls.take(2)))) == 0,
        busy_interfaces(Some(crate::text::unlines(ls.push(line)))) == busy_interfaces(
            Some(crate::text::unlines(ls)),
        ) + if carried(line) {
            1nat
        } else {
            0
        },
        busy_interfaces(None) == 0,
{
    let more = ls.push(line);
    assert forall|k: int| 0 <= k < more.len() implies crate::text::is_line(#[trigger] more[k]) by {
        if k < ls.len() {
            assert(more[k] == ls[k]);
        }
    }
    let two = ls.take(2);
    assert forall|k: int| 0 <= k < two.len() implies crate::text::is_line(#[trigger] two[k]) by {
        assert(two[k] == ls[k]);
    }
    crate::text::lines_read_back(ls);
    crate::text::lines_read_back(more);
    crate::text::lines_read_back(two);
    assert(two.skip(2) =~= seq![]);
    assert(more.skip(2) =~= ls.skip(2).push(line));
    assert(more.skip(2).drop_last() =~= ls.skip(2));
}

/// Android is known by its kernel's name, in letters of either size, by its build
/// file or by the terminal it runs in; by nothing else.
pub proof fn android_is_known_by_its_name(
    facts: ProcFactsView,
    front: Seq<char>,
    name: Seq<char>,
    back: Seq<char>,
)
    ensures
        facts.build_prop || facts.termux ==> facts.android(),
        name.len() == 7 && (name[0] == 'a' || name[0] == 'A') && (name[1] == 'n' || name[1] == 'N')
            && (name[2] == 'd' || name[2] == 'D') && (name[3] == 'r' || name[3] == 'R') && (name[4]
            == 'o' || name[4] == 'O') && (name[5] == 'i' || name[5] == 'I') && (name[6] == 'd'
            || name[6] == 'D') && facts.version == Some(front + name + back) ==> facts.android(),
        facts.version is None && !facts.build_prop && !facts.termux ==> !facts.android(),
        facts.version matches Some(v) && v.len() < 7 && !facts.build_prop && !facts.termux
            ==> !facts.android(),
{
    reveal_strlit("android");
    if name.len() == 7 && facts.version == Some(front + name + back) {
        let v = lower(front + name + back);
        let n = front.len() as int;
        if (name[0] == 'a' || name[0] == 'A') && (name[1] == 'n' || name[1] == 'N') && (name[2]
            == 'd' || name[2] == 'D') && (name[3] == 'r' || name[3] == 'R') && (name[4] == 'o'
            || name[4] == 'O') && (name[5] == 'i' || name[5] == 'I') && (name[6] == 'd' || name[6]
            == 'D') {
            assert(v.subrange(n, n + 7) =~= "android"@);
            assert(crate::text::has_at(v, "android"@, n));
        }
    }
}

/// The sight that is found is told by three things alone: whether there are
/// tables, whether they gave rows while the interfaces are busy, and whether any
/// row could be traced.
pub proof fn the_sight_is_told_by_what_was_read(facts: ProcFactsView, rows: nat, traced: nat)
    ensures
        ({
            let tables = facts.has_tcp || facts.has_tcp6;
            let busy = busy_interfaces(facts.net_dev) > 0;
            let found = facts.assessment(rows, traced);
            &&& found.sight is NoProcNet <==> !tables
            &&& found.sight is TablesWithheld <==> tables && rows == 0 && busy
            &&& found.sight is OwnProcessOnly <==> tables && rows > 0 && traced == 0
            &&& found.sight is Full <==> tables && (rows == 0 && !busy || rows > 0 && traced > 0)
            &&& found.android == facts.android()
            &&& found.sight is NoProcNet ==> found.evidence == facts.root
                + "/net/tcp and tcp6 do not exist"@
            &&& found.sight is Full ==> found.evidence == dec(rows) + " socket(s), "@ + dec(traced)
                + " attributed to a process"@
            &&& found.remedy is Some ==> (found.remedy->0
                == "run it as root — most sockets on a machine belong to other users"@
                <==> !facts.android())
        }),
{
    reveal_strlit("run it as root — most sockets on a machine belong to other users");
    reveal_strlit(
        "Android does not expose other processes' sockets to an unprivileged app. A rooted device can, with su; otherwise this machine cannot be read from here.",
    );
    assert("run it as root — most sockets on a machine belong to other users"@[0] == 'r');
    assert(
    "Android does not expose other processes' sockets to an unprivileged app. A rooted device can, with su; otherwise this machine cannot be read from here."@[0]
        == 'A');
}

/// What was counted is said, what could be done about it is said where something
/// can be, and only what was read is believed.
pub proof fn the_evidence_gives_its_numbers(facts: ProcFactsView, rows: nat, traced: nat)
    ensures
        ({
            let found = facts.assessment(rows, traced);
            &&& found.remedy is Some <==> found.sight is TablesWithheld || found.sight
                is OwnProcessOnly
            &&& found.sight is TablesWithheld ==> crate::text::contains(
                found.evidence,
                dec(busy_interfaces(facts.net_dev)),
            )
            &&& found.sight is OwnProcessOnly ==> found.evidence.take(dec(rows).len() as int) == dec(
                rows,
            )
            &&& found.sight.trusted() <==> rows > 0 && (facts.has_tcp || facts.has_tcp6) || rows == 0
                && (facts.has_tcp || facts.has_tcp6) && busy_interfaces(facts.net_dev) == 0
        }),
{
    let found = facts.assessment(rows, traced);
    if found.sight is TablesWithheld {
        crate::text::lemma_inside(
            "the socket tables yielded no rows, while "@,
            dec(busy_interfaces(facts.net_dev)),
            " interface(s) in /proc/net/dev have carried packets. A machine that has moved traffic and reports no sockets is not idle — it is not telling us."@,
        );
    }
    if found.sight is OwnProcessOnly {
        assert(found.evidence.take(dec(rows).len() as int) =~= dec(rows));
    }
}

} // verus!
