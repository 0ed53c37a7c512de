# Zagorakys

Converts comic archives to MOBI for Kindle or to CBZ for Kobo, makes CBZ and PDF
files smaller, and previews books.

The library under `src/` holds what the program knows and decides, and proves it
with Verus. The program under `app/` reads and writes files, runs other programs
and shows a window; it asks the library what comes next.

| module | what it is about |
| --- | --- |
| `natural`, `order`, `listing` | the natural order of names, sorting, which files are pages |
| `names`, `pages` | names of pages, writing a CBZ file |
| `archive` | reading comic archives |
| `mobi` | reading MOBI books |
| `picture`, `quality` | fitting, splitting and encoding pictures, which pages and sources to skip |
| `pdf` | making the pictures in a PDF file smaller |
| `cache`, `preview` | the previewer |
| `device`, `convert`, `conversion` | devices, options and the course of a conversion |
| `tools` | the programs that unpack RAR archives and render PDF files |
| `text`, `bytes`, `size`, `sniff`, `progress`, `cancel` | small parts of all these |

## What is proved

Every function states what it returns for the inputs it takes. Where the answer
rests on another thread (whether a conversion was called off), on the pixels that
the image crate computes, or on what is left of a file after a failed write, it
states what holds of every outcome. The laws of the library stand beside the
functions they are about, as public proof functions: that the natural order is a
total order in which numbers are compared by value and case decides last, that
pages are written without a failure and read back from a CBZ file as they were
written, that just the pages that are large enough are kept, that of a PDF document
only pictures change and none of them grows, that a conversion comes to an end,
never touches its source and, where it makes a smaller file, takes no name that is
in use, and others.

What the image, zip, lopdf and base64 crates do is stated, not proved: each of
their functions is called in one place, whose comment says what is taken from it.
