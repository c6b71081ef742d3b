# invoice_printer

Lays the electronic invoices of a directory (railway tickets, taxi and hotel
invoices as PDFs) out on A4 pages for printing and cutting, and prints the
totals by category, with the amounts also in Chinese capital numerals.

- `src/` is the library, with contracts and proofs: classification of an invoice's
  text, extraction of its amount (in millionths of a yuan,
  rounded to cents only when written), statistics by category, the
  grouped and capital-numeral renderings of amounts, the text of the report,
  the placement of tickets on pages, the recognition of PDF file names and
  their order.
- `app/` is the command: argument parsing, scanning the directory, reading
  the text of the PDFs and composing the output PDF with pdfium, and printing
  the table.
- `tests/` runs the library on concrete values.
