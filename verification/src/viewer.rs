//! State of the viewer: the file shown, its areas, and which area is on
//! screen. Areas are numbered from 1; stepping past either end wraps round.
use vstd::prelude::*;
use crate::util::MyPoint;

verus! {

/// Whether the camera may take mouse input (the pointer is over the view).
pub struct CameraInputAllowed(pub bool);

impl Default for CameraInputAllowed {
    fn default() -> (r: Self)
        ensures
            !r.0,
    {
        CameraInputAllowed(false)
    }
}

/// Path of the file on show; empty before a file is chosen.
pub struct PCDFilePath(pub String);

impl Default for PCDFilePath {
    fn default() -> (r: Self)
        ensures
            r.0@.len() == 0,
    {
        PCDFilePath(String::new())
    }
}

/// The areas of the file on show.
pub struct Areas(pub Vec<Vec<MyPoint>>);

/// The file on show, its areas, the number of the area on screen (from 1)
/// and how many areas there are.
pub struct PCDFileInfo {
    pub path: String,
    pub areas: Vec<Vec<MyPoint>>,
    pub area_num: u32,
    pub area_len: u32,
}

impl Default for PCDFileInfo {
    fn default() -> (r: Self)
        ensures
            r.path@.len() == 0,
            r.areas@.len() == 0,
            r.area_num == 1,
            r.area_len == 1,
    {
        PCDFileInfo { path: String::new(), areas: Vec::new(), area_num: 1, area_len: 1 }
    }
}

/// The area number that asking for area `n` leads to among `len` areas:
/// 0 stands for the last area, and a number past the last for the first.
pub open spec fn new_area_number(n: u32, len: u32) -> u32 {
    if n == 0 {
        len
    } else if n <= len {
        n
    } else {
        1
    }
}

/// Shows area `n`, wrapping round at both ends.
pub fn set_new_area(n: u32, pcd_file_info: &mut PCDFileInfo)
    ensures
        final(pcd_file_info).area_num == new_area_number(n, old(pcd_file_info).area_len),
        final(pcd_file_info).area_len == old(pcd_file_info).area_len,
        final(pcd_file_info).path == old(pcd_file_info).path,
        final(pcd_file_info).areas == old(pcd_file_info).areas,
{
    if n == 0 {
        pcd_file_info.area_num = pcd_file_info.area_len;
    } else if n <= pcd_file_info.area_len {
        pcd_file_info.area_num = n;
    } else {
        pcd_file_info.area_num = 1;
    }
}

impl PCDFileInfo {
    /// The "previous" button: the area before the one on screen.
    pub fn show_previous_area(&mut self)
        requires
            old(self).area_num >= 1,
        ensures
            final(self).area_num == new_area_number(
                (old(self).area_num - 1) as u32,
                old(self).area_len,
            ),
            final(self).area_len == old(self).area_len,
            final(self).path == old(self).path,
            final(self).areas == old(self).areas,
    {
        let n = self.area_num - 1;
        set_new_area(n, self);
    }

    /// The "next" button: the area after the one on screen.
    pub fn show_next_area(&mut self)
        requires
            old(self).area_num < u32::MAX,
        ensures
            final(self).area_num == new_area_number(
                (old(self).area_num + 1) as u32,
                old(self).area_len,
            ),
            final(self).area_len == old(self).area_len,
            final(self).path == old(self).path,
            final(self).areas == old(self).areas,
    {
        let n = self.area_num + 1;
        set_new_area(n, self);
    }

    /// A file has been chosen and split: remember its path and areas. The
    /// number of areas is kept as a `u32`, cut down when it does not fit; the
    /// area on screen keeps its number.
    pub fn open_file(&mut self, path: String, areas: Vec<Vec<MyPoint>>)
        ensures
            final(self).path == path,
            final(self).areas == areas,
            final(self).area_len == areas@.len() as u32,
            final(self).area_num == old(self).area_num,
    {
        self.path = path;
        self.area_len = #[verifier::truncate] (areas.len() as u32);
        self.areas = areas;
    }

    /// The points of the area on screen.
    pub fn current_area(&self) -> (area: &Vec<MyPoint>)
        requires
            1 <= self.area_num <= self.areas@.len(),
        ensures
            *area == self.areas@[self.area_num - 1],
    {
        &self.areas[self.area_num as usize - 1]
    }
}

/// Law: once there is at least one area, any request leads to an area that
/// exists: its number is between 1 and the number of areas.
pub proof fn lemma_area_number_in_range(n: u32, len: u32)
    requires
        len >= 1,
    ensures
        1 <= new_area_number(n, len) <= len,
{
}

/// Law: "next" then "previous" comes back to the area one started from.
pub proof fn lemma_next_then_previous(num: u32, len: u32)
    requires
        1 <= num <= len,
        len < u32::MAX,
    ensures
        new_area_number((new_area_number((num + 1) as u32, len) - 1) as u32, len) == num,
{
}

/// Law: "previous" then "next" comes back to the area one started from.
pub proof fn lemma_previous_then_next(num: u32, len: u32)
    requires
        1 <= num <= len,
        len < u32::MAX,
    ensures
        new_area_number((new_area_number((num - 1) as u32, len) + 1) as u32, len) == num,
{
}

/// Law: "next" from the last area shows the first, and "previous" from the
/// first shows the last.
pub proof fn lemma_wrap_round(len: u32)
    requires
        1 <= len < u32::MAX,
    ensures
        new_area_number((len + 1) as u32, len) == 1,
        new_area_number(0, len) == len,
{
}

} // verus!
