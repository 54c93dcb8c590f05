use vstd::prelude::*;

verus! {

/// One command of a glyph outline, with points of type `P`.
#[derive(Debug)]
pub enum OutlineEvent<P> {
    /// Start a new contour at the point.
    MoveTo(P),
    /// A straight edge to the point.
    LineTo(P),
    /// A quadratic curve with the given control point to the given end.
    QuadTo(P, P),
    /// A cubic curve. It is observed and never drawn.
    CurveTo(P, P, P),
    /// Close the contour with an edge back to its start.
    Close,
}

/// What is to be drawn for one outline command.
#[derive(Debug)]
pub enum Stroke<P> {
    /// Nothing.
    Nothing,
    /// The segment from the first point to the second.
    Line(P, P),
    /// The quadratic curve through start, control and end point.
    Quadratic(P, P, P),
}

/// The pen that follows an outline: where it stands, and where the contour
/// that it draws began.
#[derive(Debug)]
pub struct Pen<P> {
    pub position: P,
    pub start: P,
}

impl<P: Copy> Pen<P> {
    /// Where the pen stands after `event`.
    pub open spec fn moved(self, event: OutlineEvent<P>) -> Pen<P> {
        match event {
            OutlineEvent::MoveTo(p) => Pen { position: p, start: p },
            OutlineEvent::LineTo(p) => Pen { position: p, start: self.start },
            OutlineEvent::QuadTo(_, p) => Pen { position: p, start: self.start },
            OutlineEvent::CurveTo(_, _, _) => self,
            OutlineEvent::Close => Pen { position: self.start, start: self.start },
        }
    }

    /// What `event` draws when the pen stands here.
    pub open spec fn stroke(self, event: OutlineEvent<P>) -> Stroke<P> {
        match event {
            OutlineEvent::MoveTo(_) => Stroke::Nothing,
            OutlineEvent::LineTo(p) => Stroke::Line(self.position, p),
            OutlineEvent::QuadTo(c, p) => Stroke::Quadratic(self.position, c, p),
            OutlineEvent::CurveTo(_, _, _) => Stroke::Nothing,
            OutlineEvent::Close => Stroke::Line(self.position, self.start),
        }
    }

    /// A pen at `position`, for a contour that began at `start`.
    pub fn new(position: P, start: P) -> (r: Pen<P>)
        ensures
            r == (Pen { position, start }),
    {
        Pen { position, start }
    }

    /// Takes one outline command: moves the pen and tells what to draw.
    pub fn step(&mut self, event: OutlineEvent<P>) -> (r: Stroke<P>)
        ensures
            *final(self) == old(self).moved(event),
            r == old(self).stroke(event),
    {
        match event {
            OutlineEvent::MoveTo(p) => {
                self.position = p;
                self.start = p;
                Stroke::Nothing
            },
            OutlineEvent::LineTo(p) => {
                let from = self.position;
                self.position = p;
                Stroke::Line(from, p)
            },
            OutlineEvent::QuadTo(c, p) => {
                let from = self.position;
                self.position = p;
                Stroke::Quadratic(from, c, p)
            },
            OutlineEvent::CurveTo(_, _, _) => Stroke::Nothing,
            OutlineEvent::Close => {
                let from = self.position;
                self.position = self.start;
                Stroke::Line(from, self.start)
            },
        }
    }
}

/// A contour that is closed ends where it began: after `Close` the pen
/// stands at the start of the contour, and the closing edge leads there from
/// where the pen stood.
pub proof fn lemma_close_returns_to_start<P: Copy>(pen: Pen<P>)
    ensures
        pen.moved(OutlineEvent::Close).position == pen.start,
        pen.stroke(OutlineEvent::Close) == Stroke::Line(pen.position, pen.start),
{
}

/// Consecutive strokes join: whatever an event draws starts where the pen
/// stood, and ends where the pen stands afterwards.
pub proof fn lemma_strokes_join<P: Copy>(pen: Pen<P>, event: OutlineEvent<P>)
    ensures
        match pen.stroke(event) {
            Stroke::Nothing => true,
            Stroke::Line(from, to) => from == pen.position && to == pen.moved(event).position,
            Stroke::Quadratic(from, _, to) => from == pen.position && to == pen.moved(
                event,
            ).position,
        },
{
}

} // verus!
