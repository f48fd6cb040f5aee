# pdf_lib

A library for PDF documents, with proofs: it counts, adds, inserts, removes and
copies pages, reads and sets the document information, finds the images that the
pages draw, and writes their pixels as PNG files. `app/` makes a Python module of
it.

| module | what it holds |
| --- | --- |
| `model` | the values of a document in mathematical terms, and the order of names |
| `objects`, `document`, `codec` | the calls into `pdf_lib_rs`, `flate2` and `png`, each with the contract that is believed of it |
| `graph`, `images` | following references, and finding the images of a page |
| `pages`, `tree` | the page tree and the list of pages |
| `places` | whether the places of the objects in a file can be written |
| `text`, `cmyk`, `encode` | texts, CMYK pixels and PNG files |
| `pdf`, `image` | the types for callers, `Pdf` and `PdfImage` |
| `page_laws`, `info_laws`, `number_laws`, `image_laws` | what holds between operations |

The contracts speak of a document as a `DocumentView` (its objects by number, the
largest number given out, and the trailer's references) and of an image as an
`ImageView`. A method that needs more of a document than that it exists, such as a
page tree that does not lead round in a circle, has that in its `requires`; a
method beside it tests for it at run time.

Page sizes are whole points in the library. Parsing a file, and pages whose size
is a fraction of a point, are in `app/`.
