//! `esp`: the boot loader goes onto a disk of its own.
//!
//! A whole disk is divided and formatted, an empty partition formatted, and a
//! FAT32 partition only written to. Anything else is refused unless it may be
//! replaced, and then the operator has to confirm.

use vstd::prelude::*;

use crate::cmd::deploy;
use crate::cmd::deploy::esp;
use crate::cmd::deploy::plan;
use crate::effects;
use crate::error;
use crate::error::Error;
use crate::order;
use crate::paths;
use crate::sub;
use crate::sub::{Call, Runner, World};
use crate::text;
use crate::zfs_ops;

verus! {

/// Arguments of `esp`.
#[derive(Debug)]
pub struct EspArgs {
    /// A whole disk, or a partition.
    pub target: String,
    /// The label in the firmware's list.
    pub label: String,
    /// What is on the target may be overwritten.
    pub replace: bool,
    /// Show the plan, and do nothing.
    pub check: bool,
}

/// What the target is.
#[derive(Debug, Clone, Copy, PartialEq, Eq, Structural)]
pub enum Shape {
    WholeDisk,
    Partition,
}

impl DeepView for Shape {
    type V = Shape;

    open spec fn deep_view(&self) -> Shape {
        *self
    }
}

/// What is on the target.
#[derive(Debug)]
pub enum Content {
    Empty,
    Fat32,
    /// Anything else, and what it is.
    Other(String),
}

/// What is on the target, by what is known of it.
pub enum Holding {
    Empty,
    Fat32,
    Other(Seq<char>),
}

impl DeepView for Content {
    type V = Holding;

    open spec fn deep_view(&self) -> Holding {
        match self {
            Content::Empty => Holding::Empty,
            Content::Fat32 => Holding::Fat32,
            Content::Other(s) => Holding::Other(s@),
        }
    }
}

/// The plan.
#[derive(Debug)]
pub struct Plan {
    pub target: String,
    pub shape: Shape,
    pub content: Content,
    /// The disk of a partition.
    pub parent_disk: Option<String>,
    /// The number of a partition.
    pub part_number: Option<u8>,
}

/// The plan, by what is known of it.
pub struct Scheme {
    pub target: Seq<char>,
    pub shape: Shape,
    pub content: Holding,
    pub parent_disk: Option<Seq<char>>,
    pub part_number: Option<u8>,
}

impl DeepView for Plan {
    type V = Scheme;

    open spec fn deep_view(&self) -> Scheme {
        Scheme {
            target: self.target@,
            shape: self.shape,
            content: self.content.deep_view(),
            parent_disk: self.parent_disk.deep_view(),
            part_number: self.part_number,
        }
    }
}

// ---------------------------------------------------------------------------
// What the plan says
// ---------------------------------------------------------------------------

/// Something would be overwritten.
pub open spec fn overwrites(p: Scheme) -> bool {
    match p.shape {
        Shape::WholeDisk => !(p.content is Empty),
        Shape::Partition => p.content is Other,
    }
}

/// The partition is formatted.
pub open spec fn formats(p: Scheme) -> bool {
    !(p.shape is Partition && p.content is Fat32)
}

/// What is on the target, in words.
pub open spec fn holding_text(c: Holding) -> Seq<char> {
    match c {
        Holding::Empty => "<empty>"@,
        Holding::Fat32 => "vfat"@,
        Holding::Other(s) => s,
    }
}

/// The partition that is written to.
pub open spec fn partition_of(p: Scheme) -> Seq<char> {
    match p.shape {
        Shape::WholeDisk => plan::partition_of(p.target, 1),
        Shape::Partition => p.target,
    }
}

/// The disk that the firmware is told.
pub open spec fn disk_of(p: Scheme) -> Seq<char> {
    match p.shape {
        Shape::WholeDisk => p.target,
        Shape::Partition => match p.parent_disk {
            Some(d) => d,
            None => p.target,
        },
    }
}

/// The number of the partition that the firmware is told.
pub open spec fn part_of(p: Scheme) -> u8 {
    match p.shape {
        Shape::WholeDisk => 1,
        Shape::Partition => match p.part_number {
            Some(n) => n,
            None => 1,
        },
    }
}

/// What is planned for.
pub open spec fn head_lines(p: Scheme, label: Seq<char>, replace: bool) -> Seq<Seq<char>> {
    seq![
        "zboot esp — plan"@,
        plan::thick_rule(),
        "  target         : "@ + p.target,
        "  shape          : "@ + (match p.shape {
            Shape::WholeDisk => "whole disk"@,
            Shape::Partition => "partition"@,
        }),
        "  content        : "@ + holding_text(p.content),
        "  label          : "@ + label,
    ] + (if overwrites(p) {
        seq![
            "  replace        : "@ + (if replace {
                "yes (--replace given)"@
            } else {
                "REQUIRED but not given"@
            }),
        ]
    } else {
        seq![]
    }) + seq![plan::thin_rule(), "  operations (in order):"@]
}

/// The number of the step that mounts the partition.
pub open spec fn mount_step(p: Scheme) -> nat {
    1 + (if p.shape is WholeDisk {
        1nat
    } else {
        0nat
    }) + (if formats(p) {
        1nat
    } else {
        0nat
    })
}

/// The steps.
pub open spec fn step_lines(p: Scheme, label: Seq<char>) -> Seq<Seq<char>> {
    let n = mount_step(p);
    (if p.shape is WholeDisk {
        seq![
            plan::numbered(
                1,
                "wipefs -a "@ + p.target + " ; sfdisk "@ + p.target + " (GPT: 512MiB ESP)"@,
            ),
        ]
    } else {
        seq![]
    }) + (if formats(p) {
        seq![plan::numbered((n - 1) as nat, "mkfs.vfat -F32 "@ + partition_of(p))]
    } else {
        seq![
            "    -. mkfs.vfat skipped (target already FAT32 — preserves existing \\EFI\\ entries)"@,
        ]
    }) + seq![
        plan::numbered(n, "mount "@ + partition_of(p) + " → /tmp/zboot-esp-<pid>"@),
        plan::numbered(
            n + 1,
            "copy zboot-boot.efi → \\EFI\\zboot-boot\\zboot-boot.efi (+ BOOTX64.EFI)"@,
        ),
        plan::numbered(
            n + 2,
            "efibootmgr --create --disk "@ + disk_of(p) + " --part "@ + text::decimal(
                part_of(p) as nat,
            ) + " --label "@ + text::quoted_text(label) + " \\"@,
        ),
        "         --loader '\\EFI\\zboot-boot\\zboot-boot.efi'"@,
        plan::thick_rule(),
    ]
}

/// The plan in words.
pub open spec fn plan_text(p: Scheme, label: Seq<char>, replace: bool) -> Seq<char> {
    text::paragraph(head_lines(p, label, replace) + step_lines(p, label))
}

fn put(out: &mut Vec<String>, t: String)
    ensures
        final(out).deep_view() == old(out).deep_view().push(t@),
{
    text::push_text(out, t.as_str());
}

impl Plan {
    /// Something would be overwritten.
    pub fn needs_replace(&self) -> (r: bool)
        ensures
            r == overwrites(self.deep_view()),
    {
        match (self.shape, &self.content) {
            (Shape::WholeDisk, Content::Empty) => false,
            (Shape::Partition, Content::Empty) => false,
            (Shape::Partition, Content::Fat32) => false,
            _ => true,
        }
    }

    /// The partition is formatted. One that is FAT32 already is not, so that
    /// what is on it stays.
    pub fn needs_mkfs(&self) -> (r: bool)
        ensures
            r == formats(self.deep_view()),
    {
        match (self.shape, &self.content) {
            (Shape::Partition, Content::Fat32) => false,
            _ => true,
        }
    }

    /// What is on the target, in words.
    pub fn existing_signatures(&self) -> (r: String)
        ensures
            r@ == holding_text(self.deep_view().content),
    {
        match &self.content {
            Content::Empty => "<empty>".to_owned(),
            Content::Fat32 => "vfat".to_owned(),
            Content::Other(s) => s.clone(),
        }
    }

    /// The partition that is written to.
    pub fn esp_partition(&self) -> (r: String)
        ensures
            r@ == partition_of(self.deep_view()),
    {
        match self.shape {
            Shape::WholeDisk => plan::partition_path(self.target.as_str(), 1),
            Shape::Partition => self.target.clone(),
        }
    }

    /// The disk that the firmware is told.
    pub fn efibootmgr_disk(&self) -> (r: String)
        ensures
            r@ == disk_of(self.deep_view()),
    {
        match self.shape {
            Shape::WholeDisk => self.target.clone(),
            Shape::Partition => match &self.parent_disk {
                Some(d) => d.clone(),
                None => self.target.clone(),
            },
        }
    }

    /// The number of the partition that the firmware is told.
    pub fn efibootmgr_part(&self) -> (r: u8)
        ensures
            r == part_of(self.deep_view()),
    {
        match self.shape {
            Shape::WholeDisk => 1,
            Shape::Partition => match self.part_number {
                Some(n) => n,
                None => 1,
            },
        }
    }

    fn put_head(&self, label: &str, replace: bool, out: &mut Vec<String>)
        ensures
            final(out).deep_view() == old(out).deep_view() + head_lines(
                self.deep_view(),
                label@,
                replace,
            ),
    {
        text::push_text(out, "zboot esp — plan");
        text::push_text(out, "================================================================");
        put(out, text::cat2("  target         : ", self.target.as_str()));
        let shape: &str = match self.shape {
            Shape::WholeDisk => "whole disk",
            Shape::Partition => "partition",
        };
        put(out, text::cat2("  shape          : ", shape));
        let held: String = self.existing_signatures();
        put(out, text::cat2("  content        : ", held.as_str()));
        put(out, text::cat2("  label          : ", label));
        if self.needs_replace() {
            let given: &str = if replace {
                "yes (--replace given)"
            } else {
                "REQUIRED but not given"
            };
            put(out, text::cat2("  replace        : ", given));
        }
        text::push_text(out, "----------------------------------------------------------------");
        text::push_text(out, "  operations (in order):");
    }

    fn put_steps(&self, label: &str, out: &mut Vec<String>)
        ensures
            final(out).deep_view() == old(out).deep_view() + step_lines(
                self.deep_view(),
                label@,
            ),
    {
        let mut n: u8 = 1;
        let whole: bool = match self.shape {
            Shape::WholeDisk => true,
            Shape::Partition => false,
        };
        if whole {
            let line: String = text::cat5(
                "wipefs -a ",
                self.target.as_str(),
                " ; sfdisk ",
                self.target.as_str(),
                " (GPT: 512MiB ESP)",
            );
            put(out, plan::number(1, line.as_str()));
            n = 2;
        }
        let part: String = self.esp_partition();
        if self.needs_mkfs() {
            let line: String = text::cat2("mkfs.vfat -F32 ", part.as_str());
            put(out, plan::number(n, line.as_str()));
            n = n + 1;
        } else {
            text::push_text(
                out,
                "    -. mkfs.vfat skipped (target already FAT32 — preserves existing \\EFI\\ entries)",
            );
        }
        let line: String = text::cat3("mount ", part.as_str(), " → /tmp/zboot-esp-<pid>");
        put(out, plan::number(n, line.as_str()));
        put(
            out,
            plan::number(
                n + 1,
                "copy zboot-boot.efi → \\EFI\\zboot-boot\\zboot-boot.efi (+ BOOTX64.EFI)",
            ),
        );
        let disk: String = self.efibootmgr_disk();
        let shown: String = text::dec(self.efibootmgr_part() as u128);
        let q: String = text::quoted(label);
        let line: String = text::cat7(
            "efibootmgr --create --disk ",
            disk.as_str(),
            " --part ",
            shown.as_str(),
            " --label ",
            q.as_str(),
            " \\",
        );
        put(out, plan::number(n + 2, line.as_str()));
        text::push_text(out, "         --loader '\\EFI\\zboot-boot\\zboot-boot.efi'");
        text::push_text(out, "================================================================");
    }

    /// The plan in words.
    pub fn render(&self, label: &str, replace: bool) -> (r: String)
        ensures
            r@ == plan_text(self.deep_view(), label@, replace),
    {
        let mut out: Vec<String> = Vec::new();
        assert(out.deep_view() =~= seq![]);
        self.put_head(label, replace, &mut out);
        self.put_steps(label, &mut out);
        assert(out.deep_view() =~= head_lines(self.deep_view(), label@, replace) + step_lines(
            self.deep_view(),
            label@,
        ));
        text::end_lines(&out)
    }

    /// Looks at the target, and plans.
    pub fn probe<R: Runner>(r: &mut R, target: &str) -> (res: Result<Plan, Error>)
        ensures
            sub::did(final(r).world(), res) == probe_does(old(r).world(), target@),
    {
        proof {
            reveal(probe_does);
        }
        let shape = match detect_shape(r, target) {
            Err(e) => return Err(e),
            Ok(s) => s,
        };
        let content = match detect_content(r, target, shape) {
            Err(e) => return Err(e),
            Ok(c) => c,
        };
        match shape {
            Shape::WholeDisk => Ok(
                Plan {
                    target: target.to_owned(),
                    shape,
                    content,
                    parent_disk: None,
                    part_number: None,
                },
            ),
            Shape::Partition => {
                let pk = match lsblk_pkname(r, target) {
                    Err(e) => return Err(e),
                    Ok(p) => p,
                };
                let disk: String = if text::starts_with(pk.as_str(), "/dev/") {
                    pk
                } else {
                    text::cat2("/dev/", pk.as_str())
                };
                Ok(
                    Plan {
                        target: target.to_owned(),
                        shape,
                        content,
                        parent_disk: Some(disk),
                        part_number: Some(esp::partition_number(target)),
                    },
                )
            },
        }
    }
}

// ---------------------------------------------------------------------------
// Looking at the target
// ---------------------------------------------------------------------------

/// The first line of a text, without blanks round it.
pub open spec fn first_line(t: Seq<char>) -> Seq<char> {
    let ls = text::lines_of(t);
    if ls.len() == 0 {
        text::trimmed(""@)
    } else {
        text::trimmed(ls[0])
    }
}

fn read_first_line(t: &str) -> (r: String)
    ensures
        r@ == first_line(t@),
{
    let ls = text::lines(t);
    if ls.len() == 0 {
        text::trim("").to_owned()
    } else {
        assert(ls.deep_view()[0] == ls@[0]@);
        text::trim(ls[0]).to_owned()
    }
}

/// Asks `lsblk` for one column.
#[verifier::opaque]
pub open spec fn column_does(w: World, column: Seq<char>, target: Seq<char>) -> (World, Result<
    Seq<char>,
    Seq<char>,
>) {
    (
        w.run("lsblk"@, seq!["-no"@, column, target]),
        match w.printed() {
            Err(m) => Err(
                error::within("spawn `lsblk -no "@ + column + " "@ + target + "`"@, m),
            ),
            Ok(out) => if out.rc == 0 {
                match sub::legible(out, "non-utf8 lsblk output"@) {
                    Err(m) => Err(m),
                    Ok(_) => Ok(first_line(out.stdout)),
                }
            } else {
                Err(
                    "lsblk "@ + target + " rc="@ + zfs_ops::rc_text(out.rc) + ": "@
                        + text::trimmed(out.stderr),
                )
            },
        },
    )
}

fn ask_column<R: Runner>(r: &mut R, column: &str, target: &str) -> (res: Result<String, Error>)
    ensures
        sub::did(final(r).world(), res) == column_does(old(r).world(), column@, target@),
{
    proof {
        reveal(column_does);
    }
    let args = text::argv3("-no", column, target);
    match r.read("lsblk", args.as_slice()) {
        Err(e) => {
            let what: String = text::cat5("spawn `lsblk -no ", column, " ", target, "`");
            Err(e.context(what.as_str()))
        },
        Ok(out) => if out.rc == 0 {
            match sub::check_legible(&out, "non-utf8 lsblk output") {
                Err(e) => Err(e),
                Ok(()) => Ok(read_first_line(out.stdout.as_str())),
            }
        } else {
            let rc: String = zfs_ops::rc_shown(out.rc);
            Err(
                Error::from_text(
                    text::cat6(
                        "lsblk ",
                        target,
                        " rc=",
                        rc.as_str(),
                        ": ",
                        text::trim(out.stderr.as_str()),
                    ),
                ),
            )
        },
    }
}

/// What the target is, by what `lsblk` calls it.
pub open spec fn shape_of(kind: Seq<char>, target: Seq<char>) -> Result<Shape, Seq<char>> {
    if kind == "disk"@ || kind == "loop"@ {
        Ok(Shape::WholeDisk)
    } else if kind == "part"@ {
        Ok(Shape::Partition)
    } else {
        Err(
            "target "@ + target + " has unsupported lsblk type "@ + text::quoted_text(kind)
                + " (expected disk/loop/part)"@,
        )
    }
}

/// What the target is, by what `lsblk` calls it.
pub fn parse_shape(kind: &str, target: &str) -> (res: Result<Shape, Error>)
    ensures
        error::outcome(res) == shape_of(kind@, target@),
{
    if text::eq(kind, "disk") || text::eq(kind, "loop") {
        return Ok(Shape::WholeDisk);
    }
    if text::eq(kind, "part") {
        return Ok(Shape::Partition);
    }
    let q: String = text::quoted(kind);
    Err(
        Error::from_text(
            text::cat5(
                "target ",
                target,
                " has unsupported lsblk type ",
                q.as_str(),
                " (expected disk/loop/part)",
            ),
        ),
    )
}

/// Asks what the target is.
pub open spec fn detect_shape_does(w: World, target: Seq<char>) -> (World, Result<
    Shape,
    Seq<char>,
>) {
    let (w1, kind) = column_does(w, "TYPE"@, target);
    match kind {
        Err(m) => (w1, Err(m)),
        Ok(k) => (w1, shape_of(k, target)),
    }
}

fn detect_shape<R: Runner>(r: &mut R, target: &str) -> (res: Result<Shape, Error>)
    ensures
        sub::did(final(r).world(), res) == detect_shape_does(old(r).world(), target@),
{
    match ask_column(r, "TYPE", target) {
        Err(e) => Err(e),
        Ok(k) => parse_shape(k.as_str(), target),
    }
}

/// What is on the target: no signature and no devices, FAT32 alone on a
/// partition, or something else.
pub open spec fn content_of(
    shape: Shape,
    signatures: Seq<Seq<char>>,
    children: Seq<Seq<char>>,
) -> Holding {
    let kinds = order::sorted_set(signatures);
    let shown = text::joined(kinds, ","@);
    match shape {
        Shape::WholeDisk => if children.len() == 0 && kinds.len() == 0 {
            Holding::Empty
        } else {
            let parts = "partitions: "@ + text::joined(children, ", "@);
            Holding::Other(
                if children.len() == 0 {
                    shown
                } else if kinds.len() == 0 {
                    parts
                } else {
                    parts + "; "@ + shown
                },
            )
        },
        Shape::Partition => if kinds.len() == 0 {
            Holding::Empty
        } else if shown == "vfat"@ {
            Holding::Fat32
        } else {
            Holding::Other(shown)
        },
    }
}

/// What is on the target.
pub fn classify(shape: Shape, signatures: &Vec<String>, children: &Vec<String>) -> (r: Content)
    ensures
        r.deep_view() == content_of(shape, signatures.deep_view(), children.deep_view()),
{
    let kinds = order::sort_set(signatures);
    let shown: String = text::join(&kinds, ",");
    match shape {
        Shape::WholeDisk => {
            if children.len() == 0 && kinds.len() == 0 {
                return Content::Empty;
            }
            let listed: String = text::join(children, ", ");
            let parts: String = text::cat2("partitions: ", listed.as_str());
            if children.len() == 0 {
                Content::Other(shown)
            } else if kinds.len() == 0 {
                Content::Other(parts)
            } else {
                Content::Other(text::cat3(parts.as_str(), "; ", shown.as_str()))
            }
        },
        Shape::Partition => if kinds.len() == 0 {
            Content::Empty
        } else if text::eq(shown.as_str(), "vfat") {
            Content::Fat32
        } else {
            Content::Other(shown)
        },
    }
}

/// Looks for what is on the target.
#[verifier::opaque]
pub open spec fn detect_content_does(w: World, target: Seq<char>, shape: Shape) -> (World, Result<
    Holding,
    Seq<char>,
>) {
    let (w1, signatures) = deploy::signatures_does(w, target);
    match signatures {
        Err(m) => (w1, Err(m)),
        Ok(ss) => {
            let (w2, children) = deploy::children_does(w1, target);
            match children {
                Err(m) => (w2, Err(m)),
                Ok(cs) => (w2, Ok(content_of(shape, ss, cs))),
            }
        },
    }
}

fn detect_content<R: Runner>(r: &mut R, target: &str, shape: Shape) -> (res: Result<Content, Error>)
    ensures
        sub::did(final(r).world(), res) == detect_content_does(old(r).world(), target@, shape),
{
    proof {
        reveal(detect_content_does);
    }
    let signatures = match deploy::wipefs_signatures(r, target) {
        Err(e) => return Err(e),
        Ok(s) => s,
    };
    let children = match deploy::lsblk_children(r, target) {
        Err(e) => return Err(e),
        Ok(c) => c,
    };
    Ok(classify(shape, &signatures, &children))
}

/// Asks for the disk of a partition.
pub open spec fn pkname_does(w: World, partition: Seq<char>) -> (World, Result<
    Seq<char>,
    Seq<char>,
>) {
    let (w1, got) = column_does(w, "PKNAME"@, partition);
    match got {
        Err(m) => (w1, Err(m)),
        Ok(pk) => if pk.len() == 0 {
            (
                w1,
                Err(
                    "lsblk -no PKNAME "@ + partition + " returned empty — not a partition?"@,
                ),
            )
        } else {
            (w1, Ok(pk))
        },
    }
}

fn lsblk_pkname<R: Runner>(r: &mut R, partition: &str) -> (res: Result<String, Error>)
    ensures
        sub::did(final(r).world(), res) == pkname_does(old(r).world(), partition@),
{
    match ask_column(r, "PKNAME", partition) {
        Err(e) => Err(e),
        Ok(pk) => if pk.as_str().is_empty() {
            Err(
                Error::from_text(
                    text::cat3(
                        "lsblk -no PKNAME ",
                        partition,
                        " returned empty — not a partition?",
                    ),
                ),
            )
        } else {
            Ok(pk)
        },
    }
}

/// Looks at the target, and plans.
#[verifier::opaque]
pub open spec fn probe_does(w: World, target: Seq<char>) -> (World, Result<Scheme, Seq<char>>) {
    let (w1, shape) = detect_shape_does(w, target);
    match shape {
        Err(m) => (w1, Err(m)),
        Ok(shape) => {
            let (w2, content) = detect_content_does(w1, target, shape);
            match content {
                Err(m) => (w2, Err(m)),
                Ok(content) => match shape {
                    Shape::WholeDisk => (
                        w2,
                        Ok(
                            Scheme {
                                target,
                                shape,
                                content,
                                parent_disk: None,
                                part_number: None,
                            },
                        ),
                    ),
                    Shape::Partition => {
                        let (w3, pk) = pkname_does(w2, target);
                        match pk {
                            Err(m) => (w3, Err(m)),
                            Ok(pk) => (
                                w3,
                                Ok(
                                    Scheme {
                                        target,
                                        shape,
                                        content,
                                        parent_disk: Some(
                                            if text::begins(pk, "/dev/"@) {
                                                pk
                                            } else {
                                                "/dev/"@ + pk
                                            },
                                        ),
                                        part_number: Some(esp::number_of(target) as u8),
                                    },
                                ),
                            ),
                        }
                    },
                },
            }
        },
    }
}

// ---------------------------------------------------------------------------
// Doing it
// ---------------------------------------------------------------------------

/// The last name in the target's path.
pub open spec fn basename_does(path: Seq<char>) -> Result<Seq<char>, Seq<char>> {
    match paths::base(path) {
        Some(b) => Ok(b),
        None => Err("path "@ + text::quoted_text(path) + " has no basename"@),
    }
}

fn basename_of(path: &str) -> (res: Result<String, Error>)
    ensures
        error::outcome(res) == basename_does(path@),
{
    match paths::file_name(path) {
        Some(b) => Ok(b),
        None => {
            let q: String = text::quoted(path);
            Err(Error::from_text(text::cat3("path ", q.as_str(), " has no basename")))
        },
    }
}

/// Lets the operator confirm by typing the target's name, or takes the
/// environment's word for it.
pub open spec fn confirm_does(w: World, expected: Seq<char>, bypass: Option<Seq<char>>) -> (
    World,
    Result<(), Seq<char>>,
) {
    deploy::confirm_by_does(
        w,
        "ZBOOT_ESP_CONFIRM_TARGET"@,
        "This will OVERWRITE the target."@,
        expected,
        bypass,
        false,
    )
}

/// Lets the operator confirm by typing the target's name.
pub fn confirm_target<R: Runner>(r: &mut R, expected: &str, env_bypass: Option<&str>) -> (res: Result<
    (),
    Error,
>)
    ensures
        sub::did(final(r).world(), res) == confirm_does(
            old(r).world(),
            expected@,
            env_bypass.deep_view(),
        ),
{
    deploy::confirm_by(
        r,
        "ZBOOT_ESP_CONFIRM_TARGET",
        "This will OVERWRITE the target.",
        expected,
        env_bypass,
        false,
    )
}

/// Divides a disk, where the target is one.
#[verifier::opaque]
pub open spec fn divide_disk_does(w: World, p: Scheme) -> (World, Result<(), Seq<char>>) {
    match p.shape {
        Shape::Partition => (w, Ok(())),
        Shape::WholeDisk => sub::chain(
            deploy::divide_does(
                w.say(
                    "[ ] wipefs -a "@ + p.target + " ; sfdisk "@ + p.target
                        + " (single 512MiB ESP)"@,
                ),
                p.target,
                "label: gpt\n,512MiB,U\n"@,
            ),
            |w1: World| (w1.say("[x] partition"@), Ok(())),
        ),
    }
}

fn divide_disk<R: Runner>(r: &mut R, p: &Plan) -> (res: Result<(), Error>)
    ensures
        sub::did(final(r).world(), res) == divide_disk_does(old(r).world(), p.deep_view()),
{
    proof {
        reveal(divide_disk_does);
    }
    match p.shape {
        Shape::Partition => return Ok(()),
        Shape::WholeDisk => {},
    }
    let disk: &str = p.target.as_str();
    let line: String = text::cat5(
        "[ ] wipefs -a ",
        disk,
        " ; sfdisk ",
        disk,
        " (single 512MiB ESP)",
    );
    r.say(line.as_str());
    match deploy::divide(r, disk, "label: gpt\n,512MiB,U\n") {
        Err(e) => return Err(e),
        Ok(()) => {},
    }
    r.say("[x] partition");
    Ok(())
}

/// Formats the partition, unless it is FAT32 already.
#[verifier::opaque]
pub open spec fn format_does(w: World, p: Scheme) -> (World, Result<(), Seq<char>>) {
    let part = partition_of(p);
    if formats(p) {
        sub::chain(
            deploy::spawn_does(
                w.say("[ ] mkfs.vfat ESP ("@ + part + ")"@),
                "mkfs.vfat"@,
                seq!["-F32"@, "-n"@, "ESP"@, part],
            ),
            |w1: World| (w1.say("[x] mkfs.vfat ESP"@), Ok(())),
        )
    } else {
        (
            w.say(
                "[ ] mkfs.vfat skipped ("@ + part
                    + " already FAT32; preserving \\EFI\\ entries)"@,
            ),
            Ok(()),
        )
    }
}

fn format<R: Runner>(r: &mut R, p: &Plan) -> (res: Result<(), Error>)
    ensures
        sub::did(final(r).world(), res) == format_does(old(r).world(), p.deep_view()),
{
    proof {
        reveal(format_does);
    }
    let part: String = p.esp_partition();
    if p.needs_mkfs() {
        let line: String = text::cat3("[ ] mkfs.vfat ESP (", part.as_str(), ")");
        r.say(line.as_str());
        let args = text::argv4("-F32", "-n", "ESP", part.as_str());
        match deploy::spawn(r, "mkfs.vfat", args.as_slice()) {
            Err(e) => return Err(e),
            Ok(()) => {},
        }
        r.say("[x] mkfs.vfat ESP");
    } else {
        let line: String = text::cat3(
            "[ ] mkfs.vfat skipped (",
            part.as_str(),
            " already FAT32; preserving \\EFI\\ entries)",
        );
        r.say(line.as_str());
    }
    Ok(())
}

/// Copies the loader to the mounted partition. Where that fails, the partition
/// is unmounted.
#[verifier::opaque]
pub open spec fn copy_does(w: World, mp: Seq<char>, carried: Seq<u8>) -> (World, Result<
    (),
    Seq<char>,
>) {
    let (w1, bundle) = esp::resolve_bundle_does(w, carried);
    match bundle {
        Err(m) => (w1, Err(error::within("resolve zboot-boot.efi bundle"@, m))),
        Ok(b) => {
            let (w2, copied) = esp::install_does(
                w1.say("[ ] copy zboot-boot.efi (from "@ + b + ")"@),
                b,
                mp,
            );
            match copied {
                Err(m) => (deploy::spawn_does(w2, "umount"@, seq![mp]).0, Err(m)),
                Ok(()) => (w2.say("[x] copy zboot-boot.efi"@), Ok(())),
            }
        },
    }
}

fn copy_loader<R: Runner>(r: &mut R, mp: &str, carried: &[u8]) -> (res: Result<(), Error>)
    ensures
        sub::did(final(r).world(), res) == copy_does(old(r).world(), mp@, carried@),
{
    proof {
        reveal(copy_does);
    }
    let bundle: String = match esp::resolve_efi_bundle(r, carried) {
        Err(e) => return Err(e.context("resolve zboot-boot.efi bundle")),
        Ok(b) => b,
    };
    let line: String = text::cat3("[ ] copy zboot-boot.efi (from ", bundle.as_str(), ")");
    r.say(line.as_str());
    match esp::install_efi_to_esp(r, bundle.as_str(), mp) {
        Err(e) => {
            let _ = deploy::unmount_be(r, mp);
            return Err(e);
        },
        Ok(()) => {},
    }
    r.say("[x] copy zboot-boot.efi");
    Ok(())
}

/// Unmounts the partition, and tells the firmware.
#[verifier::opaque]
pub open spec fn finish_does(w: World, p: Scheme, mp: Seq<char>, label: Seq<char>) -> (
    World,
    Result<(), Seq<char>>,
) {
    sub::chain(
        deploy::spawn_does(w.say("[ ] unmount ESP"@), "umount"@, seq![mp]),
        |w1: World|
            sub::chain(
                esp::register_does(
                    w1.say("[x] unmount ESP"@).say(
                        "[ ] efibootmgr --create --label "@ + text::quoted_text(label),
                    ),
                    disk_of(p),
                    part_of(p) as nat,
                    label,
                ),
                |w2: World|
                    (
                        w2.say("[x] efibootmgr register"@).say("\n=== esp complete ==="@),
                        Ok(()),
                    ),
            ),
    )
}

fn finish<R: Runner>(r: &mut R, p: &Plan, mp: &str, label: &str) -> (res: Result<(), Error>)
    ensures
        sub::did(final(r).world(), res) == finish_does(
            old(r).world(),
            p.deep_view(),
            mp@,
            label@,
        ),
{
    proof {
        reveal(finish_does);
    }
    r.say("[ ] unmount ESP");
    match deploy::unmount_be(r, mp) {
        Err(e) => return Err(e),
        Ok(()) => {},
    }
    r.say("[x] unmount ESP");
    let q: String = text::quoted(label);
    let line: String = text::cat2("[ ] efibootmgr --create --label ", q.as_str());
    r.say(line.as_str());
    let disk: String = p.efibootmgr_disk();
    match esp::register_efi(r, disk.as_str(), p.efibootmgr_part(), label) {
        Err(e) => return Err(e),
        Ok(()) => {},
    }
    r.say("[x] efibootmgr register");
    r.say("\n=== esp complete ===");
    Ok(())
}

/// Carries the plan out.
#[verifier::opaque]
pub open spec fn execute_does(w: World, p: Scheme, label: Seq<char>, carried: Seq<u8>) -> (
    World,
    Result<(), Seq<char>>,
) {
    sub::chain(
        divide_disk_does(w.say("\n=== executing esp ==="@), p),
        |w1: World|
            sub::chain(
                format_does(w1, p),
                |w2: World|
                    {
                        let mp = "/tmp/zboot-esp-"@ + text::decimal(w2.reply().pid as nat);
                        sub::chain(
                            esp::mount_esp_does(
                                w2.after(Call::Pid).say("[ ] mount ESP at "@ + mp),
                                partition_of(p),
                                mp,
                            ),
                            |w3: World|
                                sub::chain(
                                    copy_does(w3.say("[x] mount ESP"@), mp, carried),
                                    |w4: World| finish_does(w4, p, mp, label),
                                ),
                        )
                    },
            ),
    )
}

/// Carries the plan out. `carried` is the boot loader that the program carries
/// with it.
pub fn execute<R: Runner>(r: &mut R, p: &Plan, label: &str, carried: &[u8]) -> (res: Result<
    (),
    Error,
>)
    ensures
        sub::did(final(r).world(), res) == execute_does(
            old(r).world(),
            p.deep_view(),
            label@,
            carried@,
        ),
{
    proof {
        reveal(execute_does);
    }
    r.say("\n=== executing esp ===");
    match divide_disk(r, p) {
        Err(e) => return Err(e),
        Ok(()) => {},
    }
    match format(r, p) {
        Err(e) => return Err(e),
        Ok(()) => {},
    }
    let pid: String = text::dec(r.pid() as u128);
    let mp: String = text::cat2("/tmp/zboot-esp-", pid.as_str());
    let line: String = text::cat2("[ ] mount ESP at ", mp.as_str());
    r.say(line.as_str());
    let part: String = p.esp_partition();
    match esp::mount_esp(r, part.as_str(), mp.as_str()) {
        Err(e) => return Err(e),
        Ok(()) => {},
    }
    r.say("[x] mount ESP");
    match copy_loader(r, mp.as_str(), carried) {
        Err(e) => return Err(e),
        Ok(()) => {},
    }
    finish(r, p, mp.as_str(), label)
}

/// The complaint about a target that may not be overwritten.
pub open spec fn refusal_text(p: Scheme) -> Seq<char> {
    "target "@ + p.target
        + " is not empty/FAT32 — pass --replace to overwrite. (signatures: "@ + holding_text(
        p.content,
    ) + ")"@
}

/// Makes sure that the target may be overwritten, where it would be.
#[verifier::opaque]
pub open spec fn permit_does(w: World, p: Scheme, replace: bool) -> (World, Result<
    (),
    Seq<char>,
>) {
    if !overwrites(p) {
        (w, Ok(()))
    } else if !replace {
        (w, Err(refusal_text(p)))
    } else {
        let w1 = w.after(Call::Env { name: "ZBOOT_ESP_CONFIRM_TARGET"@ });
        match basename_does(p.target) {
            Err(m) => (w1, Err(m)),
            Ok(b) => confirm_does(w1, b, w.maybe()),
        }
    }
}

fn permit<R: Runner>(r: &mut R, p: &Plan, replace: bool) -> (res: Result<(), Error>)
    ensures
        sub::did(final(r).world(), res) == permit_does(old(r).world(), p.deep_view(), replace),
{
    proof {
        reveal(permit_does);
    }
    if !p.needs_replace() {
        return Ok(());
    }
    if !replace {
        let held: String = p.existing_signatures();
        return Err(
            Error::from_text(
                text::cat5(
                    "target ",
                    p.target.as_str(),
                    " is not empty/FAT32 — pass --replace to overwrite. (signatures: ",
                    held.as_str(),
                    ")",
                ),
            ),
        );
    }
    let bypass = r.env("ZBOOT_ESP_CONFIRM_TARGET");
    let base: String = match basename_of(p.target.as_str()) {
        Err(e) => return Err(e),
        Ok(b) => b,
    };
    let bypass: Option<&str> = match &bypass {
        Some(v) => Some(v.as_str()),
        None => None,
    };
    confirm_target(r, base.as_str(), bypass)
}

/// What `esp` does.
pub open spec fn run_does(
    w: World,
    target: Seq<char>,
    label: Seq<char>,
    replace: bool,
    check: bool,
    carried: Seq<u8>,
) -> (World, Result<(), Seq<char>>) {
    let (w1, probed) = probe_does(w, target);
    match probed {
        Err(m) => (w1, Err(m)),
        Ok(p) => {
            let (w2, told) = sub::tell_does(w1, plan_text(p, label, replace), "write esp plan"@);
            if told is Err || check {
                (w2, told)
            } else {
                sub::chain(
                    permit_does(w2, p, replace),
                    |w3: World| execute_does(w3, p, label, carried),
                )
            }
        },
    }
}

/// `esp`: the boot loader goes onto a disk of its own. `carried` is the boot
/// loader that the program carries with it.
pub fn run<R: Runner>(r: &mut R, args: &EspArgs, carried: &[u8]) -> (res: Result<(), Error>)
    ensures
        sub::did(final(r).world(), res) == run_does(
            old(r).world(),
            args.target@,
            args.label@,
            args.replace,
            args.check,
            carried@,
        ),
{
    let p = match Plan::probe(r, args.target.as_str()) {
        Err(e) => return Err(e),
        Ok(p) => p,
    };
    let shown: String = p.render(args.label.as_str(), args.replace);
    if let Err(e) = sub::tell(r, shown.as_str(), "write esp plan") {
        return Err(e);
    }
    if args.check {
        return Ok(());
    }
    match permit(r, &p, args.replace) {
        Err(e) => return Err(e),
        Ok(()) => {},
    }
    execute(r, &p, args.label.as_str(), carried)
}

// ---------------------------------------------------------------------------
// Laws
// ---------------------------------------------------------------------------

proof fn lemma_probe_looks(w: World, target: Seq<char>)
    ensures
        sub::only_looked(w, probe_does(w, target).0),
{
    reveal(probe_does);
    reveal(column_does);
    reveal(detect_content_does);
    let args = seq!["--noheadings"@, "--output=TYPE"@, "-n"@, target];
    assert(args[2] == "-n"@);
    assert(sub::query("wipefs"@, args));
}

/// A plan that is only checked, and a target that would be overwritten without
/// leave, leave the machine as it is.
pub proof fn law_nothing_is_overwritten_without_leave(
    w: World,
    target: Seq<char>,
    label: Seq<char>,
    replace: bool,
    check: bool,
    carried: Seq<u8>,
)
    requires
        check || (!replace && (probe_does(w, target).1 matches Ok(p) ==> overwrites(p))),
    ensures
        sub::only_looked(w, run_does(w, target, label, replace, check, carried).0),
{
    reveal(permit_does);
    lemma_probe_looks(w, target);
}

/// A FAT32 partition is neither divided nor formatted.
pub proof fn law_fat32_is_kept(w: World, p: Scheme)
    requires
        p.shape is Partition,
        p.content is Fat32,
    ensures
        !overwrites(p),
        divide_disk_does(w, p) == (w, Ok::<(), Seq<char>>(())),
        sub::only_looked(w, format_does(w, p).0),
{
    reveal(divide_disk_does);
    reveal(format_does);
}

/// The same signature found twice counts once.
pub proof fn law_signatures_count_once(shape: Shape, a: Seq<Seq<char>>, children: Seq<Seq<char>>)
    requires
        a.len() > 0,
        forall|i: int| 0 <= i < a.len() ==> #[trigger] a[i] == a[0],
    ensures
        content_of(shape, a, children) == content_of(shape, seq![a[0]], children),
{
    lemma_one_kind(a);
    lemma_one_kind(seq![a[0]]);
}

proof fn lemma_one_kind(a: Seq<Seq<char>>)
    requires
        a.len() > 0,
        forall|i: int| 0 <= i < a.len() ==> #[trigger] a[i] == a[0],
    ensures
        order::sorted_set(a) == seq![a[0]],
{
    let s = order::sorted_set(a);
    order::law_sorted_set(a);
    assert(a.contains(a[0]));
    assert(s.contains(a[0]));
    assert forall|i: int| 0 <= i < s.len() implies s[i] == a[0] by {
        assert(s.contains(s[i]));
        assert(a.contains(s[i]));
    }
    if s.len() > 1 {
        assert(text::less(s[0], s[1]));
        text::lemma_less_irreflexive(a[0]);
    }
    assert(s =~= seq![a[0]]);
}

/// A system partition that was set up is made where that was due, holds the boot
/// loader, and is on the firmware's list under the label that was asked for.
pub proof fn law_system_partition_is_ready(
    w: World,
    p: Scheme,
    label: Seq<char>,
    carried: Seq<u8>,
)
    requires
        execute_does(w, p, label, carried).1 is Ok,
    ensures
        ({
            let end = execute_does(w, p, label, carried).0;
            &&& formats(p) ==> effects::came_off(w, end, esp::making(partition_of(p)))
            &&& effects::came_off(
                w,
                end,
                esp::listing(disk_of(p), part_of(p) as nat, label),
            )
            &&& exists|mp: Seq<char>, bundle: Seq<char>|
                effects::came_off(w, end, esp::opening(partition_of(p), mp))
                    && effects::all_came_off(w, end, #[trigger] esp::placing(bundle, mp))
        }),
{
    reveal(execute_does);
    reveal(divide_disk_does);
    reveal(format_does);
    reveal(copy_does);
    reveal(finish_does);
    let end = execute_does(w, p, label, carried).0;
    let part = partition_of(p);
    let w0 = w.say("\n=== executing esp ==="@);
    let wd = w0.say(
        "[ ] wipefs -a "@ + p.target + " ; sfdisk "@ + p.target + " (single 512MiB ESP)"@,
    );
    deploy::law_divided(wd, p.target, "label: gpt\n,512MiB,U\n"@);
    let w1 = divide_disk_does(w0, p).0;
    assert(sub::continues(w0, wd));
    assert(sub::continues(w0, w1)) by {
        if p.shape is WholeDisk {
            let we = deploy::divide_does(wd, p.target, "label: gpt\n,512MiB,U\n"@).0;
            effects::lemma_continues(w0, wd, we);
            assert(sub::continues(we, w1));
            effects::lemma_continues(w0, we, w1);
        }
    }
    assert(sub::continues(w, w0));
    effects::lemma_continues(w, w0, w1);
    let wf = w1.say("[ ] mkfs.vfat ESP ("@ + part + ")"@);
    let make = esp::making(part);
    deploy::lemma_spawned(wf, "mkfs.vfat"@, make->Attend_args);
    let wg = deploy::spawn_does(wf, "mkfs.vfat"@, make->Attend_args).0;
    let w2 = format_does(w1, p).0;
    assert(sub::continues(w1, wf));
    effects::lemma_continues(w1, wf, wg);
    if formats(p) {
        assert(sub::continues(wg, w2));
        effects::lemma_continues(w1, wg, w2);
        effects::lemma_came_within(w1, wf, wg, w2, make);
    }
    assert(sub::continues(w1, w2));
    effects::lemma_continues(w, w1, w2);
    let mp = "/tmp/zboot-esp-"@ + text::decimal(w2.reply().pid as nat);
    let w3 = w2.after(Call::Pid).say("[ ] mount ESP at "@ + mp);
    assert(sub::continues(w2, w3));
    esp::lemma_opened(w3, part, mp);
    let w4 = esp::mount_esp_does(w3, part, mp).0;
    let w5 = w4.say("[x] mount ESP"@);
    assert(sub::continues(w4, w5));
    esp::lemma_bundle_goes_on(w5, carried);
    let (w6, found) = esp::resolve_bundle_does(w5, carried);
    let bundle = found->Ok_0;
    let w7 = w6.say("[ ] copy zboot-boot.efi (from "@ + bundle + ")"@);
    assert(sub::continues(w6, w7));
    esp::law_loader_is_placed(w7, bundle, mp);
    let w8 = esp::install_does(w7, bundle, mp).0;
    let w9 = w8.say("[x] copy zboot-boot.efi"@);
    assert(sub::continues(w8, w9));
    let wa = w9.say("[ ] unmount ESP"@);
    deploy::lemma_spawned(wa, "umount"@, seq![mp]);
    let wb = deploy::spawn_does(wa, "umount"@, seq![mp]).0;
    let wc = wb.say("[x] unmount ESP"@).say(
        "[ ] efibootmgr --create --label "@ + text::quoted_text(label),
    );
    let list = esp::listing(disk_of(p), part_of(p) as nat, label);
    esp::law_loader_is_registered(wc, disk_of(p), part_of(p) as nat, label);
    let wz = esp::register_does(wc, disk_of(p), part_of(p) as nat, label).0;
    assert(sub::continues(wz, end));
    assert(sub::continues(wb, wc));
    effects::lemma_continues(wc, wz, end);
    effects::lemma_continues(wb, wc, end);
    effects::lemma_continues(wa, wb, end);
    assert(sub::continues(w9, wa));
    effects::lemma_continues(w9, wa, end);
    effects::lemma_continues(w8, w9, end);
    effects::lemma_continues(w7, w8, end);
    effects::lemma_continues(w6, w7, end);
    effects::lemma_continues(w5, w6, end);
    effects::lemma_continues(w4, w5, end);
    effects::lemma_continues(w3, w4, end);
    effects::lemma_continues(w2, w3, end);
    effects::lemma_continues(w, w2, w3);
    effects::lemma_continues(w, w3, w4);
    effects::lemma_continues(w, w4, w5);
    effects::lemma_continues(w, w5, w6);
    effects::lemma_continues(w, w6, w7);
    effects::lemma_continues(w, w7, w8);
    effects::lemma_continues(w, w8, w9);
    effects::lemma_continues(w, w9, wa);
    effects::lemma_continues(w, wa, wb);
    effects::lemma_continues(w, wb, wc);
    if formats(p) {
        effects::lemma_came_within(w, w1, w2, end, make);
    }
    effects::lemma_all_within(w, w3, w4, end, seq![esp::opening(part, mp)]);
    assert(seq![esp::opening(part, mp)][0] == esp::opening(part, mp));
    effects::lemma_all_within(w, w7, w8, end, esp::placing(bundle, mp));
    effects::lemma_came_within(w, wc, wz, end, list);
}

} // verus!
