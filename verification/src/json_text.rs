//! JSON text of objects whose member names and values need no escaping.

use vstd::prelude::*;
use vstd::string::StringExecFns;

verus! {

/// The members of an object: names, and the texts of the values.
pub type Members = Seq<(Seq<char>, Seq<char>)>;

/// How an object is laid out.
pub struct Style {
    /// What precedes each member.
    pub lead: Seq<char>,
    /// What separates a name from its value.
    pub colon: Seq<char>,
    /// What follows the last member.
    pub tail: Seq<char>,
}

/// Everything on one line, without spaces.
pub open spec fn compact() -> Style {
    Style { lead: Seq::empty(), colon: ":"@, tail: Seq::empty() }
}

/// A line break and `n` spaces.
pub open spec fn new_line(n: nat) -> Seq<char> {
    seq!['\n'] + Seq::new(n, |i: int| ' ')
}

/// One member per line, indented by two spaces for each of `level + 1` levels.
pub open spec fn indented(level: nat) -> Style {
    Style { lead: new_line(2 * (level + 1)), colon: ": "@, tail: new_line(2 * level) }
}

/// A name or a text value in quotes.
pub open spec fn quoted(text: Seq<char>) -> Seq<char> {
    "\""@ + text + "\""@
}

/// One member.
pub open spec fn member_text(style: Style, member: (Seq<char>, Seq<char>)) -> Seq<char> {
    style.lead + quoted(member.0) + style.colon + member.1
}

/// Members separated by commas.
pub open spec fn members_text(style: Style, members: Members) -> Seq<char>
    decreases members.len(),
{
    if members.len() == 0 {
        Seq::empty()
    } else if members.len() == 1 {
        member_text(style, members[0])
    } else {
        members_text(style, members.drop_last()) + ","@ + member_text(style, members.last())
    }
}

/// An object.
pub open spec fn object_text(style: Style, members: Members) -> Seq<char> {
    "{"@ + members_text(style, members) + (if members.len() == 0 {
        Seq::empty()
    } else {
        style.tail
    }) + "}"@
}

/// Puts a text in quotes.
pub fn quote(text: &str) -> (result: String)
    ensures
        result@ == quoted(text@),
{
    let mut result = String::new();
    result.append("\"");
    result.append(text);
    result.append("\"");
    assert(result@ =~= quoted(text@));
    result
}

/// Writes one object, member by member.
pub struct ObjectWriter {
    text: String,
    empty: bool,
    lead: String,
    colon: String,
    tail: String,
    members: Ghost<Members>,
}

impl ObjectWriter {
    /// How the object is laid out.
    pub closed spec fn style(&self) -> Style {
        Style { lead: self.lead@, colon: self.colon@, tail: self.tail@ }
    }

    /// The members written so far.
    pub closed spec fn members(&self) -> Members {
        self.members@
    }

    /// The text so far is that of the members so far.
    pub closed spec fn wf(&self) -> bool {
        &&& self.empty == (self.members@.len() == 0)
        &&& self.text@ == "{"@ + members_text(self.style(), self.members@)
    }

    /// Starts an object on one line.
    pub fn compact() -> (writer: Self)
        ensures
            writer.style() == compact(),
            writer.members() == Members::empty(),
            writer.wf(),
    {
        let mut text = String::new();
        text.append("{");
        let mut colon = String::new();
        colon.append(":");
        assert(text@ =~= "{"@ + Seq::<char>::empty());
        assert(colon@ =~= ":"@);
        let writer = ObjectWriter {
            text,
            empty: true,
            lead: String::new(),
            colon,
            tail: String::new(),
            members: Ghost(Seq::empty()),
        };
        assert(writer.style().lead =~= compact().lead);
        assert(writer.style().tail =~= compact().tail);
        writer
    }

    /// Starts an object with one member per line.
    pub fn indented(level: usize) -> (writer: Self)
        ensures
            writer.style() == indented(level as nat),
            writer.members() == Members::empty(),
            writer.wf(),
    {
        let mut text = String::new();
        text.append("{");
        let mut colon = String::new();
        colon.append(": ");
        assert(text@ =~= "{"@ + Seq::<char>::empty());
        assert(colon@ =~= ": "@);
        let tail = line_break(level);
        let mut lead = line_break(level);
        lead.append("  ");
        proof {
            reveal_strlit("  ");
            assert(lead@ =~= new_line(2 * (level as nat + 1)));
        }
        ObjectWriter { text, empty: true, lead, colon, tail, members: Ghost(Seq::empty()) }
    }

    /// Writes one member.
    pub fn member(&mut self, name: &str, value: &str)
        requires
            old(self).wf(),
        ensures
            final(self).wf(),
            final(self).style() == old(self).style(),
            final(self).members() == old(self).members().push((name@, value@)),
    {
        let ghost before = self.members@;
        let ghost after = before.push((name@, value@));
        if !self.empty {
            self.text.append(",");
        }
        self.text.append(self.lead.as_str());
        self.text.append("\"");
        self.text.append(name);
        self.text.append("\"");
        self.text.append(self.colon.as_str());
        self.text.append(value);
        self.empty = false;
        self.members = Ghost(after);
        proof {
            assert(after.drop_last() =~= before);
            let member = member_text(self.style(), (name@, value@));
            if before.len() == 0 {
                assert(self.text@ =~= "{"@ + member);
            } else {
                assert(self.text@ =~= "{"@ + (members_text(self.style(), before) + ","@ + member));
            }
        }
    }

    /// Ends the object and returns its text.
    pub fn finish(self) -> (text: String)
        requires
            self.wf(),
        ensures
            text@ == object_text(self.style(), self.members()),
    {
        let mut text = self.text;
        if !self.empty {
            text.append(self.tail.as_str());
        }
        text.append("}");
        assert(text@ =~= object_text(self.style(), self.members()));
        text
    }
}

/// A line break and two spaces for each level.
fn line_break(level: usize) -> (text: String)
    ensures
        text@ == new_line(2 * level as nat),
{
    let mut text = String::new();
    text.append("\n");
    let mut i: usize = 0;
    proof {
        reveal_strlit("\n");
        assert(text@ =~= new_line(0));
    }
    while i < level
        invariant
            i <= level,
            text@ == new_line(2 * i as nat),
        decreases level - i,
    {
        text.append("  ");
        proof {
            reveal_strlit("  ");
            assert(text@ =~= new_line(2 * (i as nat + 1)));
        }
        i = i + 1;
    }
    text
}

} // verus!
